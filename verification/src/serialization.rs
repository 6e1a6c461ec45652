use vstd::prelude::*;
use bytes::{Buf, BufMut, BytesMut};
use vstd::bytes::{spec_u128_to_le_bytes, u128_from_le_bytes, u128_to_le_bytes};

verus! {

#[verifier::external_type_specification]
#[verifier::external_body]
pub struct ExBytesMut(bytes::BytesMut);

/// The bytes a `BytesMut` holds, from its read position to its end.
pub uninterp spec fn bytes_mut_contents(b: BytesMut) -> Seq<u8>;

/// `BytesMut::new`: an empty buffer.
#[verifier::external_body]
fn bytes_mut_new() -> (b: BytesMut)
    ensures
        bytes_mut_contents(b) == Seq::<u8>::empty(),
{
    BytesMut::new()
}

/// `BytesMut::from(&[u8])`: a buffer holding a copy of `data`.
#[verifier::external_body]
fn bytes_mut_from_slice(data: &[u8]) -> (b: BytesMut)
    ensures
        bytes_mut_contents(b) == data@,
{
    BytesMut::from(data)
}

/// `Buf::remaining` on a `BytesMut`: the number of bytes it holds.
#[verifier::external_body]
fn bytes_mut_remaining(b: &BytesMut) -> (r: usize)
    ensures
        r == bytes_mut_contents(*b).len(),
{
    b.remaining()
}

/// `BufMut::put_slice` on a `BytesMut`: appends `src` (the buffer grows as
/// needed, up to `isize::MAX` bytes).
#[verifier::external_body]
fn bytes_mut_put_slice(b: &mut BytesMut, src: &[u8])
    requires
        bytes_mut_contents(*old(b)).len() + src@.len() <= isize::MAX,
    ensures
        bytes_mut_contents(*final(b)) == bytes_mut_contents(*old(b)) + src@,
{
    b.put_slice(src)
}

/// `Buf::copy_to_slice` on a `BytesMut`: moves the first `dst.len()` bytes
/// into `dst` (it panics when fewer bytes remain, which `requires` rules out).
#[verifier::external_body]
fn bytes_mut_copy_to_slice(b: &mut BytesMut, dst: &mut [u8])
    requires
        old(dst)@.len() <= bytes_mut_contents(*old(b)).len(),
    ensures
        final(dst)@ == bytes_mut_contents(*old(b)).take(old(dst)@.len() as int),
        bytes_mut_contents(*final(b)) == bytes_mut_contents(*old(b)).skip(old(dst)@.len() as int),
{
    b.copy_to_slice(dst)
}

/// `BytesMut` read as a slice and copied into a `Vec`.
#[verifier::external_body]
fn bytes_mut_to_vec(b: &BytesMut) -> (v: Vec<u8>)
    ensures
        v@ == bytes_mut_contents(*b),
{
    b[..].to_vec()
}

/// A byte stream that values are written to and loaded from, in order, with
/// the version of the format it holds.
pub struct Serializer {
    source: BytesMut,
    version: usize,
}

impl Serializer {
    /// The bytes not loaded yet.
    pub closed spec fn bytes(&self) -> Seq<u8> {
        bytes_mut_contents(self.source)
    }

    pub closed spec fn spec_version(&self) -> usize {
        self.version
    }

    /// An empty stream of the given format version.
    pub fn new(version: usize) -> (s: Self)
        ensures
            s.bytes() == Seq::<u8>::empty(),
            s.spec_version() == version,
    {
        Serializer { source: bytes_mut_new(), version }
    }

    /// A stream holding a copy of `data`, to be loaded.
    pub fn from_bytes(data: &[u8], version: usize) -> (s: Self)
        ensures
            s.bytes() == data@,
            s.spec_version() == version,
    {
        Serializer { source: bytes_mut_from_slice(data), version }
    }

    /// The bytes not loaded yet.
    pub fn to_bytes(&self) -> (v: Vec<u8>)
        ensures
            v@ == self.bytes(),
    {
        bytes_mut_to_vec(&self.source)
    }

    /// The number of bytes not loaded yet.
    pub fn remaining(&self) -> (r: usize)
        ensures
            r == self.bytes().len(),
    {
        bytes_mut_remaining(&self.source)
    }

    pub fn version(&self) -> (r: usize)
        ensures
            r == self.spec_version(),
    {
        self.version
    }

    /// Moves the next `dst.len()` bytes of the stream into `dst`.
    pub fn load_bytes(&mut self, dst: &mut [u8])
        requires
            old(dst)@.len() <= old(self).bytes().len(),
        ensures
            final(dst)@ == old(self).bytes().take(old(dst)@.len() as int),
            final(self).bytes() == old(self).bytes().skip(old(dst)@.len() as int),
            final(self).spec_version() == old(self).spec_version(),
    {
        bytes_mut_copy_to_slice(&mut self.source, dst)
    }

    /// Appends `src` to the stream.
    pub fn write_bytes(&mut self, src: &[u8])
        requires
            old(self).bytes().len() + src@.len() <= isize::MAX,
        ensures
            final(self).bytes() == old(self).bytes() + src@,
            final(self).spec_version() == old(self).spec_version(),
    {
        bytes_mut_put_slice(&mut self.source, src);
    }
}

/// A value that can be written to a `Serializer` and loaded back from one.
pub trait Serializable: Sized {
    /// The bytes `write` appends for this value.
    spec fn encoding(&self) -> Seq<u8>;

    /// The number of bytes `load` reads into a value shaped like this one.
    spec fn load_len(&self) -> nat;

    /// A value writes as many bytes as a value of its shape loads.
    proof fn lemma_encoding_len(&self)
        ensures
            self.encoding().len() == self.load_len(),
    ;

    /// Replaces the value with the one the next bytes of the stream encode.
    fn load(&mut self, serializer: &mut Serializer)
        requires
            old(self).load_len() <= old(serializer).bytes().len(),
        ensures
            final(self).load_len() == old(self).load_len(),
            final(self).encoding() == old(serializer).bytes().take(old(self).load_len() as int),
            final(serializer).bytes() == old(serializer).bytes().skip(old(self).load_len() as int),
            final(serializer).spec_version() == old(serializer).spec_version(),
    ;

    /// Appends the value's encoding to the stream.
    fn write(&self, serializer: &mut Serializer)
        requires
            old(serializer).bytes().len() + self.encoding().len() <= isize::MAX,
        ensures
            final(serializer).bytes() == old(serializer).bytes() + self.encoding(),
            final(serializer).spec_version() == old(serializer).spec_version(),
    ;
}

/// The encodings of a sequence of values, one after the other.
pub open spec fn encode_all<T: Serializable>(s: Seq<T>) -> Seq<u8>
    decreases s.len(),
{
    if s.len() == 0 {
        Seq::empty()
    } else {
        encode_all(s.drop_last()) + s.last().encoding()
    }
}

/// The number of bytes loading into a sequence of values reads.
pub open spec fn total_load_len<T: Serializable>(s: Seq<T>) -> nat
    decreases s.len(),
{
    if s.len() == 0 {
        0
    } else {
        total_load_len(s.drop_last()) + s.last().load_len()
    }
}

/// A sequence writes as many bytes as it loads.
pub proof fn lemma_encode_all_len<T: Serializable>(s: Seq<T>)
    ensures
        encode_all(s).len() == total_load_len(s),
    decreases s.len(),
{
    if s.len() > 0 {
        lemma_encode_all_len(s.drop_last());
        s.last().lemma_encoding_len();
    }
}

proof fn lemma_prefix_step<T: Serializable>(s: Seq<T>, i: int)
    requires
        0 <= i < s.len(),
    ensures
        encode_all(s.subrange(0, i + 1)) == encode_all(s.subrange(0, i)) + s[i].encoding(),
        total_load_len(s.subrange(0, i + 1)) == total_load_len(s.subrange(0, i)) + s[i].load_len(),
{
    assert(s.subrange(0, i + 1).drop_last() =~= s.subrange(0, i));
}

impl Serializer {
    /// Loads `data` from the stream.
    pub fn load<T: Serializable>(&mut self, data: &mut T)
        requires
            old(data).load_len() <= old(self).bytes().len(),
        ensures
            final(data).load_len() == old(data).load_len(),
            final(data).encoding() == old(self).bytes().take(old(data).load_len() as int),
            final(self).bytes() == old(self).bytes().skip(old(data).load_len() as int),
            final(self).spec_version() == old(self).spec_version(),
    {
        data.load(self);
    }

    /// Writes `data` to the stream.
    pub fn write<T: Serializable>(&mut self, data: &T)
        requires
            old(self).bytes().len() + data.encoding().len() <= isize::MAX,
        ensures
            final(self).bytes() == old(self).bytes() + data.encoding(),
            final(self).spec_version() == old(self).spec_version(),
    {
        data.write(self);
    }

    /// Loads each element of `data`, in order.
    pub fn load_slice<T: Serializable>(&mut self, data: &mut [T])
        requires
            total_load_len(old(data)@) <= old(self).bytes().len(),
        ensures
            final(data)@.len() == old(data)@.len(),
            forall|i: int|
                0 <= i < old(data)@.len() ==> (#[trigger] final(data)@[i]).load_len() == old(
                    data,
                )@[i].load_len(),
            total_load_len(final(data)@) == total_load_len(old(data)@),
            encode_all(final(data)@) == old(self).bytes().take(total_load_len(old(data)@) as int),
            final(self).bytes() == old(self).bytes().skip(total_load_len(old(data)@) as int),
            final(self).spec_version() == old(self).spec_version(),
    {
        let ghost start = self.bytes();
        let ghost initial = data@;
        let n = data.len();
        let mut i: usize = 0;
        proof {
            assert(data@.subrange(0, 0) =~= Seq::<T>::empty());
            assert(start.take(0) =~= Seq::<u8>::empty());
            assert(start.skip(0) =~= start);
            lemma_total_prefix_bounded(initial, n as int);
            assert(initial.subrange(0, n as int) =~= initial);
        }
        while i < n
            invariant
                n == data@.len() == initial.len(),
                i <= n,
                total_load_len(initial) <= start.len(),
                forall|j: int| 0 <= j < i ==> (#[trigger] data@[j]).load_len() == initial[j].load_len(),
                forall|j: int| i <= j < n ==> #[trigger] data@[j] == initial[j],
                total_load_len(data@.subrange(0, i as int)) == total_load_len(initial.subrange(0, i as int)),
                encode_all(data@.subrange(0, i as int)) == start.take(
                    total_load_len(initial.subrange(0, i as int)) as int,
                ),
                self.bytes() == start.skip(total_load_len(initial.subrange(0, i as int)) as int),
                self.spec_version() == old(self).spec_version(),
            decreases n - i,
        {
            let ghost before = data@;
            let ghost consumed = total_load_len(initial.subrange(0, i as int));
            proof {
                lemma_prefix_step(initial, i as int);
                lemma_total_prefix_bounded(initial, i as int + 1);
            }
            data[i].load(self);
            proof {
                let after = data@;
                assert(after == before.update(i as int, after[i as int]));
                assert(after.subrange(0, i as int) =~= before.subrange(0, i as int));
                lemma_prefix_step(after, i as int);
                let l = initial[i as int].load_len();
                assert(start.take(consumed as int) + start.skip(consumed as int).take(l as int)
                    =~= start.take((consumed + l) as int));
                assert(start.skip(consumed as int).skip(l as int) =~= start.skip((consumed + l) as int));
            }
            i = i + 1;
        }
        proof {
            assert(data@.subrange(0, n as int) =~= data@);
            assert(initial.subrange(0, n as int) =~= initial);
        }
    }

    /// Writes each element of `data`, in order.
    pub fn write_slice<T: Serializable>(&mut self, data: &[T])
        requires
            old(self).bytes().len() + encode_all(data@).len() <= isize::MAX,
        ensures
            final(self).bytes() == old(self).bytes() + encode_all(data@),
            final(self).spec_version() == old(self).spec_version(),
    {
        let ghost start = self.bytes();
        let n = data.len();
        let mut i: usize = 0;
        proof {
            assert(data@.subrange(0, 0) =~= Seq::<T>::empty());
            assert(start + Seq::<u8>::empty() =~= start);
            lemma_encode_prefix_bounded(data@, n as int);
            assert(data@.subrange(0, n as int) =~= data@);
        }
        while i < n
            invariant
                n == data@.len(),
                i <= n,
                start.len() + encode_all(data@).len() <= isize::MAX,
                self.bytes() == start + encode_all(data@.subrange(0, i as int)),
                self.spec_version() == old(self).spec_version(),
            decreases n - i,
        {
            proof {
                lemma_prefix_step(data@, i as int);
                lemma_encode_prefix_bounded(data@, i as int + 1);
            }
            data[i].write(self);
            proof {
                assert(start + encode_all(data@.subrange(0, i as int)) + data@[i as int].encoding()
                    =~= start + encode_all(data@.subrange(0, i as int + 1)));
            }
            i = i + 1;
        }
        proof {
            assert(data@.subrange(0, n as int) =~= data@);
        }
    }
}

/// A prefix of a sequence loads no more bytes than the whole.
proof fn lemma_total_prefix_bounded<T: Serializable>(s: Seq<T>, i: int)
    requires
        0 <= i <= s.len(),
    ensures
        total_load_len(s.subrange(0, i)) <= total_load_len(s),
    decreases s.len() - i,
{
    if i < s.len() {
        lemma_total_prefix_bounded(s, i + 1);
        lemma_prefix_step(s, i);
    } else {
        assert(s.subrange(0, i) =~= s);
    }
}

/// A prefix of a sequence writes no more bytes than the whole.
proof fn lemma_encode_prefix_bounded<T: Serializable>(s: Seq<T>, i: int)
    requires
        0 <= i <= s.len(),
    ensures
        encode_all(s.subrange(0, i)).len() <= encode_all(s).len(),
    decreases s.len() - i,
{
    if i < s.len() {
        lemma_encode_prefix_bounded(s, i + 1);
        lemma_prefix_step(s, i);
    } else {
        assert(s.subrange(0, i) =~= s);
    }
}

impl Serializable for u128 {
    /// Sixteen bytes, least significant first.
    open spec fn encoding(&self) -> Seq<u8> {
        spec_u128_to_le_bytes(*self)
    }

    open spec fn load_len(&self) -> nat {
        16
    }

    proof fn lemma_encoding_len(&self) {
        vstd::bytes::lemma_auto_spec_u128_to_from_le_bytes();
    }

    fn load(&mut self, serializer: &mut Serializer) {
        let mut bytes: [u8; 16] = [0; 16];
        serializer.load_bytes(&mut bytes);
        *self = u128_from_le_bytes(&bytes);
        proof {
            vstd::bytes::lemma_auto_spec_u128_to_from_le_bytes();
        }
    }

    fn write(&self, serializer: &mut Serializer) {
        let bytes = u128_to_le_bytes(*self);
        serializer.write_bytes(bytes.as_slice());
    }
}

impl Serializable for [u8; 16] {
    /// The sixteen bytes, in order.
    open spec fn encoding(&self) -> Seq<u8> {
        self@
    }

    open spec fn load_len(&self) -> nat {
        16
    }

    proof fn lemma_encoding_len(&self) {
    }

    fn load(&mut self, serializer: &mut Serializer) {
        let mut bytes: [u8; 16] = [0; 16];
        serializer.load_bytes(&mut bytes);
        *self = bytes;
    }

    fn write(&self, serializer: &mut Serializer) {
        serializer.write_bytes(self);
    }
}

/// An asset record: its identifier, the identifiers of the assets it depends
/// on, and the hash of its content.
pub struct Asset {
    pub uuid: [u8; 16],
    pub dependencies: Vec<[u8; 16]>,
    pub hash: u128,
}

impl Asset {
    /// The format version of asset records.
    pub const VERSION: u32 = 1;
}

impl Serializable for Asset {
    /// The identifier, the dependencies' identifiers and the hash, in order.
    open spec fn encoding(&self) -> Seq<u8> {
        self.uuid@ + encode_all(self.dependencies@) + spec_u128_to_le_bytes(self.hash)
    }

    /// Loading reads as many dependencies as the record already lists.
    open spec fn load_len(&self) -> nat {
        16 + total_load_len(self.dependencies@) + 16
    }

    proof fn lemma_encoding_len(&self) {
        lemma_encode_all_len(self.dependencies@);
        vstd::bytes::lemma_auto_spec_u128_to_from_le_bytes();
    }

    fn load(&mut self, serializer: &mut Serializer) {
        let ghost start = serializer.bytes();
        let ghost deps_len = total_load_len(self.dependencies@);
        serializer.load(&mut self.uuid);
        serializer.load_slice(self.dependencies.as_mut_slice());
        serializer.load(&mut self.hash);
        proof {
            assert(start.take(16) + start.skip(16).take(deps_len as int) + start.skip(16).skip(
                deps_len as int,
            ).take(16) =~= start.take((16 + deps_len + 16) as int));
            assert(start.skip(16).skip(deps_len as int).skip(16) =~= start.skip(
                (16 + deps_len + 16) as int,
            ));
        }
    }

    fn write(&self, serializer: &mut Serializer) {
        proof {
            lemma_encode_all_len(self.dependencies@);
            vstd::bytes::lemma_auto_spec_u128_to_from_le_bytes();
        }
        let ghost start = serializer.bytes();
        serializer.write(&self.uuid);
        serializer.write_slice(self.dependencies.as_slice());
        serializer.write(&self.hash);
        proof {
            assert(start + self.uuid@ + encode_all(self.dependencies@) + spec_u128_to_le_bytes(
                self.hash,
            ) =~= start + self.encoding());
        }
    }
}

/// Loading right after writing, into a value shaped like the written one,
/// reads back exactly the bytes that were written, and leaves the stream as
/// it was before the write.
pub proof fn law_write_then_load<T: Serializable>(
    start: Seq<u8>,
    written: T,
    target: T,
    after_write: Seq<u8>,
    loaded: T,
    after_load: Seq<u8>,
)
    requires
        after_write == start + written.encoding(),
        target.load_len() == written.load_len(),
        start.len() == 0,
        loaded.encoding() == after_write.take(target.load_len() as int),
        after_load == after_write.skip(target.load_len() as int),
    ensures
        loaded.encoding() == written.encoding(),
        after_load == start,
{
    written.lemma_encoding_len();
    assert(after_write.take(target.load_len() as int) =~= written.encoding());
    assert(after_load =~= start);
}

/// Two hashes with the same encoding are equal: a written hash loads back as
/// itself.
pub proof fn law_u128_round_trip(written: u128, loaded: u128)
    requires
        loaded.encoding() == written.encoding(),
    ensures
        loaded == written,
{
    vstd::bytes::lemma_auto_spec_u128_to_from_le_bytes();
    assert(spec_u128_to_le_bytes(loaded).len() == 16);
    assert(spec_u128_to_le_bytes(written).len() == 16);
    assert(vstd::bytes::spec_u128_from_le_bytes(spec_u128_to_le_bytes(loaded)) == loaded);
    assert(vstd::bytes::spec_u128_from_le_bytes(spec_u128_to_le_bytes(written)) == written);
}

/// Writing a hash to an empty stream and loading it back gives the same
/// hash, and leaves the stream empty.
pub proof fn law_u128_write_then_load(written: u128, after_write: Seq<u8>, loaded: u128, after_load: Seq<u8>)
    requires
        after_write == written.encoding(),
        loaded.encoding() == after_write.take(16),
        after_load == after_write.skip(16),
    ensures
        loaded == written,
        after_load.len() == 0,
{
    law_write_then_load(Seq::<u8>::empty(), written, written, Seq::<u8>::empty() + written.encoding(), loaded, after_load);
    assert(Seq::<u8>::empty() + written.encoding() =~= after_write);
    law_u128_round_trip(written, loaded);
}

/// Writing an identifier to an empty stream and loading it back gives the
/// same bytes, and leaves the stream empty.
pub proof fn law_id_write_then_load(
    written: [u8; 16],
    after_write: Seq<u8>,
    loaded: [u8; 16],
    after_load: Seq<u8>,
)
    requires
        after_write == written.encoding(),
        loaded.encoding() == after_write.take(16),
        after_load == after_write.skip(16),
    ensures
        loaded@ == written@,
        after_load.len() == 0,
{
    law_write_then_load(Seq::<u8>::empty(), written, written, Seq::<u8>::empty() + written.encoding(), loaded, after_load);
    assert(Seq::<u8>::empty() + written.encoding() =~= after_write);
}

/// Two asset records of the same shape with the same encoding are equal.
pub proof fn law_asset_round_trip(written: Asset, loaded: Asset)
    requires
        loaded.encoding() == written.encoding(),
        loaded.dependencies@.len() == written.dependencies@.len(),
    ensures
        loaded.uuid@ == written.uuid@,
        forall|i: int|
            0 <= i < loaded.dependencies@.len() ==> (#[trigger] loaded.dependencies@[i])@
                == written.dependencies@[i]@,
        loaded.hash == written.hash,
{
    lemma_encode_all_len(written.dependencies@);
    lemma_encode_all_len(loaded.dependencies@);
    lemma_all_len_16(written.dependencies@);
    lemma_all_len_16(loaded.dependencies@);
    vstd::bytes::lemma_auto_spec_u128_to_from_le_bytes();
    let a = loaded.encoding();
    let b = written.encoding();
    let n = encode_all(written.dependencies@).len();
    assert(a.subrange(0, 16) =~= loaded.uuid@);
    assert(b.subrange(0, 16) =~= written.uuid@);
    assert(a.subrange(16, 16 + n as int) =~= encode_all(loaded.dependencies@));
    assert(b.subrange(16, 16 + n as int) =~= encode_all(written.dependencies@));
    assert(a.subrange(16 + n as int, 32 + n as int) =~= spec_u128_to_le_bytes(loaded.hash));
    assert(b.subrange(16 + n as int, 32 + n as int) =~= spec_u128_to_le_bytes(written.hash));
    law_u128_round_trip(written.hash, loaded.hash);
    lemma_ids_from_encoding(loaded.dependencies@, written.dependencies@);
}

proof fn lemma_all_len_16(s: Seq<[u8; 16]>)
    ensures
        total_load_len(s) == 16 * s.len(),
    decreases s.len(),
{
    if s.len() > 0 {
        lemma_all_len_16(s.drop_last());
    }
}

proof fn lemma_ids_from_encoding(a: Seq<[u8; 16]>, b: Seq<[u8; 16]>)
    requires
        a.len() == b.len(),
        encode_all(a) == encode_all(b),
    ensures
        forall|i: int| 0 <= i < a.len() ==> (#[trigger] a[i])@ == b[i]@,
    decreases a.len(),
{
    if a.len() > 0 {
        lemma_encode_all_len(a.drop_last());
        lemma_encode_all_len(b.drop_last());
        lemma_all_len_16(a.drop_last());
        lemma_all_len_16(b.drop_last());
        let n = encode_all(a.drop_last()).len();
        let ea = encode_all(a);
        let eb = encode_all(b);
        assert(ea.subrange(0, n as int) =~= encode_all(a.drop_last()));
        assert(eb.subrange(0, n as int) =~= encode_all(b.drop_last()));
        assert(ea.subrange(n as int, (n + 16) as int) =~= a.last()@);
        assert(eb.subrange(n as int, (n + 16) as int) =~= b.last()@);
        lemma_ids_from_encoding(a.drop_last(), b.drop_last());
        assert forall|i: int| 0 <= i < a.len() implies (#[trigger] a[i])@ == b[i]@ by {
            if i < a.len() - 1 {
                assert(a.drop_last()[i] == a[i]);
                assert(b.drop_last()[i] == b[i]);
            }
        }
    }
}

} // verus!
