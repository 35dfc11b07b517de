//! Deterministic, injective identity of a build unit.
//!
//! A fingerprint is a self-delimiting byte encoding of everything that
//! identifies a unit: its package, version, source, checksum, enabled
//! features, target kind, profile, and the fingerprints of its direct
//! dependencies. Because the encoding can be decoded, two units share a
//! fingerprint only when all of those inputs coincide.
use vstd::bytes::*;
use vstd::prelude::*;

verus! {

/// The semantic inputs of one build unit.
pub struct UnitDesc {
    pub package: Vec<u8>,
    pub version: Vec<u8>,
    pub source: Vec<u8>,
    pub checksum: Vec<u8>,
    pub features: Vec<Vec<u8>>,
    pub target_kind: Vec<u8>,
    pub profile: Vec<u8>,
}

/// Mathematical model of a [`UnitDesc`].
pub struct UnitModel {
    pub package: Seq<u8>,
    pub version: Seq<u8>,
    pub source: Seq<u8>,
    pub checksum: Seq<u8>,
    pub features: Seq<Seq<u8>>,
    pub target_kind: Seq<u8>,
    pub profile: Seq<u8>,
}

/// The byte strings held by a vector of byte vectors.
pub open spec fn byte_seqs(v: Seq<Vec<u8>>) -> Seq<Seq<u8>> {
    v.map_values(|x: Vec<u8>| x@)
}

impl View for UnitDesc {
    type V = UnitModel;

    open spec fn view(&self) -> UnitModel {
        UnitModel {
            package: self.package@,
            version: self.version@,
            source: self.source@,
            checksum: self.checksum@,
            features: byte_seqs(self.features@),
            target_kind: self.target_kind@,
            profile: self.profile@,
        }
    }
}

/// One byte string, preceded by its length as eight little-endian bytes.
pub open spec fn frame(b: Seq<u8>) -> Seq<u8> {
    spec_u64_to_le_bytes(b.len() as u64) + b
}

/// The frames of a list of byte strings, one after the other.
pub open spec fn frames(l: Seq<Seq<u8>>) -> Seq<u8>
    decreases l.len(),
{
    if l.len() == 0 {
        Seq::empty()
    } else {
        frame(l[0]) + frames(l.skip(1))
    }
}

/// A list of byte strings: its count as eight little-endian bytes, then its frames.
pub open spec fn encode_list(l: Seq<Seq<u8>>) -> Seq<u8> {
    spec_u64_to_le_bytes(l.len() as u64) + frames(l)
}

/// Every length in the list, and the list's own length, fits in 64 bits.
pub open spec fn list_fits(l: Seq<Seq<u8>>) -> bool {
    &&& l.len() <= u64::MAX
    &&& forall|i: int| 0 <= i < l.len() ==> #[trigger] l[i].len() <= u64::MAX
}

/// The fields of a unit in the order in which they are encoded.
pub open spec fn unit_fields(u: UnitModel, deps: Seq<Seq<u8>>) -> Seq<Seq<u8>> {
    seq![
        u.package,
        u.version,
        u.source,
        u.checksum,
        encode_list(u.features),
        u.target_kind,
        u.profile,
        encode_list(deps),
    ]
}

/// The fingerprint of a unit whose direct dependencies have the fingerprints `deps`.
pub open spec fn spec_fingerprint(u: UnitModel, deps: Seq<Seq<u8>>) -> Seq<u8> {
    encode_list(unit_fields(u, deps))
}

/// The inputs of a fingerprint are representable: every length fits in 64 bits.
pub open spec fn unit_fits(u: UnitModel, deps: Seq<Seq<u8>>) -> bool {
    &&& list_fits(u.features)
    &&& list_fits(deps)
    &&& list_fits(unit_fields(u, deps))
}

proof fn lemma_frames_push(l: Seq<Seq<u8>>, x: Seq<u8>)
    ensures
        frames(l.push(x)) == frames(l) + frame(x),
    decreases l.len(),
{
    if l.len() == 0 {
        assert(l.push(x).skip(1) =~= Seq::<Seq<u8>>::empty());
        assert(frames(l.push(x).skip(1)) == Seq::<u8>::empty());
        assert(l.push(x)[0] == x);
        assert(frames(l.push(x)) =~= frame(x));
        assert(frames(l) =~= Seq::<u8>::empty());
    } else {
        assert(l.push(x).skip(1) =~= l.skip(1).push(x));
        lemma_frames_push(l.skip(1), x);
        assert(frames(l.push(x)) =~= frames(l) + frame(x));
    }
}

proof fn lemma_frames_injective(a: Seq<Seq<u8>>, b: Seq<Seq<u8>>, ra: Seq<u8>, rb: Seq<u8>)
    requires
        a.len() == b.len(),
        list_fits(a),
        list_fits(b),
        frames(a) + ra == frames(b) + rb,
    ensures
        a == b,
        ra == rb,
    decreases a.len(),
{
    if a.len() == 0 {
        assert(frames(a) + ra =~= ra);
        assert(frames(b) + rb =~= rb);
        assert(a =~= b);
    } else {
        lemma_auto_spec_u64_to_from_le_bytes();
        let s = frames(a) + ra;
        let ta = frames(a.skip(1)) + ra;
        let tb = frames(b.skip(1)) + rb;
        let la = spec_u64_to_le_bytes(a[0].len() as u64);
        let lb = spec_u64_to_le_bytes(b[0].len() as u64);
        assert(s =~= la + (a[0] + ta));
        assert(s =~= lb + (b[0] + tb));
        assert(s.take(8) =~= la);
        assert(s.take(8) =~= lb);
        assert(a[0].len() == b[0].len());
        let n = a[0].len() as int;
        assert(s.subrange(8, 8 + n) =~= a[0]);
        assert(s.subrange(8, 8 + n) =~= b[0]);
        assert(s.skip(8 + n) =~= ta);
        assert(s.skip(8 + n) =~= tb);
        assert forall|i: int| 0 <= i < a.skip(1).len() implies #[trigger] a.skip(1)[i].len()
            <= u64::MAX by {
            assert(a.skip(1)[i] == a[i + 1]);
        }
        assert forall|i: int| 0 <= i < b.skip(1).len() implies #[trigger] b.skip(1)[i].len()
            <= u64::MAX by {
            assert(b.skip(1)[i] == b[i + 1]);
        }
        lemma_frames_injective(a.skip(1), b.skip(1), ra, rb);
        assert(a =~= seq![a[0]] + a.skip(1));
        assert(b =~= seq![b[0]] + b.skip(1));
    }
}

/// Two lists whose lengths fit in 64 bits have the same encoding only if they are equal.
pub proof fn lemma_encode_list_injective(a: Seq<Seq<u8>>, b: Seq<Seq<u8>>)
    requires
        list_fits(a),
        list_fits(b),
        encode_list(a) == encode_list(b),
    ensures
        a == b,
{
    lemma_auto_spec_u64_to_from_le_bytes();
    let s = encode_list(a);
    assert(s.take(8) =~= spec_u64_to_le_bytes(a.len() as u64));
    assert(encode_list(b).take(8) =~= spec_u64_to_le_bytes(b.len() as u64));
    assert(a.len() == b.len());
    assert(s.skip(8) =~= frames(a) + Seq::<u8>::empty());
    assert(encode_list(b).skip(8) =~= frames(b) + Seq::<u8>::empty());
    lemma_frames_injective(a, b, Seq::empty(), Seq::empty());
}

/// Appends the eight little-endian bytes of `n` to `out`.
fn push_u64(out: &mut Vec<u8>, n: u64)
    ensures
        final(out)@ == old(out)@ + spec_u64_to_le_bytes(n),
{
    let b = u64_to_le_bytes(n);
    let mut i: usize = 0;
    while i < 8
        invariant
            b@ == spec_u64_to_le_bytes(n),
            b@.len() == 8,
            0 <= i <= 8,
            out@ == old(out)@ + b@.take(i as int),
        decreases 8 - i,
    {
        out.push(b[i]);
        assert(b@.take(i + 1) =~= b@.take(i as int).push(b@[i as int]));
        i = i + 1;
    }
    assert(b@.take(8) =~= b@);
}

/// Appends the bytes of `b` to `out`.
fn push_bytes(out: &mut Vec<u8>, b: &Vec<u8>)
    ensures
        final(out)@ == old(out)@ + b@,
{
    let mut i: usize = 0;
    while i < b.len()
        invariant
            0 <= i <= b@.len(),
            out@ == old(out)@ + b@.take(i as int),
        decreases b@.len() - i,
    {
        out.push(b[i]);
        assert(b@.take(i + 1) =~= b@.take(i as int).push(b@[i as int]));
        i = i + 1;
    }
    assert(b@.take(b@.len() as int) =~= b@);
}

/// The self-delimiting encoding of a list of byte strings.
pub fn encode_byte_list(l: &Vec<Vec<u8>>) -> (r: Vec<u8>)
    ensures
        r@ == encode_list(byte_seqs(l@)),
{
    let mut out: Vec<u8> = Vec::new();
    push_u64(&mut out, l.len() as u64);
    let ghost head = out@;
    let mut i: usize = 0;
    while i < l.len()
        invariant
            0 <= i <= l@.len(),
            head == spec_u64_to_le_bytes(l@.len() as u64),
            out@ == head + frames(byte_seqs(l@).take(i as int)),
        decreases l@.len() - i,
    {
        let ghost before = out@;
        push_u64(&mut out, l[i].len() as u64);
        push_bytes(&mut out, &l[i]);
        proof {
            let s = byte_seqs(l@);
            assert(s.take(i + 1) =~= s.take(i as int).push(s[i as int]));
            lemma_frames_push(s.take(i as int), s[i as int]);
            assert(out@ =~= head + frames(s.take(i + 1)));
        }
        i = i + 1;
    }
    assert(byte_seqs(l@).take(l@.len() as int) =~= byte_seqs(l@));
    out
}

/// The fingerprint of `unit`, given the fingerprints of its direct dependencies.
pub fn fingerprint(unit: &UnitDesc, deps: &Vec<Vec<u8>>) -> (r: Vec<u8>)
    ensures
        r@ == spec_fingerprint(unit@, byte_seqs(deps@)),
{
    let fields: Vec<Vec<u8>> = vec![
        unit.package.clone(),
        unit.version.clone(),
        unit.source.clone(),
        unit.checksum.clone(),
        encode_byte_list(&unit.features),
        unit.target_kind.clone(),
        unit.profile.clone(),
        encode_byte_list(deps),
    ];
    assert(byte_seqs(fields@) =~= unit_fields(unit@, byte_seqs(deps@)));
    encode_byte_list(&fields)
}

/// A fingerprint is a function of the unit's inputs alone: equal inputs, including
/// the dependency fingerprints, give equal fingerprints.
pub proof fn lemma_fingerprint_deterministic(
    u1: UnitModel,
    d1: Seq<Seq<u8>>,
    u2: UnitModel,
    d2: Seq<Seq<u8>>,
)
    requires
        u1 == u2,
        d1 == d2,
    ensures
        spec_fingerprint(u1, d1) == spec_fingerprint(u2, d2),
{
}

/// Two units share a fingerprint only when all their inputs are equal.
pub proof fn lemma_fingerprint_injective(
    u1: UnitModel,
    d1: Seq<Seq<u8>>,
    u2: UnitModel,
    d2: Seq<Seq<u8>>,
)
    requires
        unit_fits(u1, d1),
        unit_fits(u2, d2),
        spec_fingerprint(u1, d1) == spec_fingerprint(u2, d2),
    ensures
        u1 == u2,
        d1 == d2,
{
    let f1 = unit_fields(u1, d1);
    let f2 = unit_fields(u2, d2);
    lemma_encode_list_injective(f1, f2);
    assert(f1[4] == f2[4]);
    assert(f1[7] == f2[7]);
    lemma_encode_list_injective(u1.features, u2.features);
    lemma_encode_list_injective(d1, d2);
}

/// Changing the fingerprints of a unit's dependencies changes the unit's fingerprint.
pub proof fn lemma_fingerprint_tracks_deps(u: UnitModel, d1: Seq<Seq<u8>>, d2: Seq<Seq<u8>>)
    requires
        unit_fits(u, d1),
        unit_fits(u, d2),
        d1 != d2,
    ensures
        spec_fingerprint(u, d1) != spec_fingerprint(u, d2),
{
    if spec_fingerprint(u, d1) == spec_fingerprint(u, d2) {
        lemma_fingerprint_injective(u, d1, u, d2);
    }
}

} // verus!
