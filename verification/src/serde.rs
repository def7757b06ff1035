//! How values are written as bytes and read back: integers big-endian,
//! sequences and texts with their length before them.

use vstd::prelude::*;
use vstd::string::StringSliceAdditionalSpecFns;
use crate::error::Error;

verus! {

/// The `width` lowest bytes of `value`, the highest of them first.
pub open spec fn be_bytes(value: nat, width: nat) -> Seq<u8>
    decreases width,
{
    if width == 0 {
        Seq::empty()
    } else {
        be_bytes(value / 256, (width - 1) as nat).push((value % 256) as u8)
    }
}

/// The number that `bytes` spell, the highest byte first.
pub open spec fn be_value(bytes: Seq<u8>) -> nat
    decreases bytes.len(),
{
    if bytes.len() == 0 {
        0
    } else {
        be_value(bytes.drop_last()) * 256 + bytes.last() as nat
    }
}

/// 256 to the power of `width`.
pub open spec fn pow256(width: nat) -> nat
    decreases width,
{
    if width == 0 {
        1
    } else {
        256 * pow256((width - 1) as nat)
    }
}

/// `be_bytes` gives as many bytes as it is asked for.
pub proof fn lemma_be_bytes_len(value: nat, width: nat)
    ensures
        be_bytes(value, width).len() == width,
    decreases width,
{
    if width > 0 {
        lemma_be_bytes_len(value / 256, (width - 1) as nat);
    }
}

/// A number that fits in `width` bytes is read back from them.
pub proof fn lemma_be_value_of_bytes(value: nat, width: nat)
    requires
        value < pow256(width),
    ensures
        be_value(be_bytes(value, width)) == value,
    decreases width,
{
    if width > 0 {
        let rest = be_bytes(value / 256, (width - 1) as nat);
        assert(value / 256 < pow256((width - 1) as nat)) by (nonlinear_arith)
            requires
                value < 256 * pow256((width - 1) as nat),
        ;
        lemma_be_value_of_bytes(value / 256, (width - 1) as nat);
        assert(rest.push((value % 256) as u8).drop_last() =~= rest);
    }
}

/// Bytes are written back from the number they spell.
pub proof fn lemma_be_bytes_of_value(bytes: Seq<u8>)
    ensures
        be_value(bytes) < pow256(bytes.len()),
        be_bytes(be_value(bytes), bytes.len()) == bytes,
    decreases bytes.len(),
{
    if bytes.len() > 0 {
        let front = bytes.drop_last();
        lemma_be_bytes_of_value(front);
        let value = be_value(bytes);
        assert(value / 256 == be_value(front) && value % 256 == bytes.last() as nat);
        assert(be_bytes(be_value(front), front.len()).push(bytes.last()) =~= bytes);
        assert(value < 256 * pow256(front.len())) by (nonlinear_arith)
            requires
                value == be_value(front) * 256 + bytes.last() as nat,
                be_value(front) < pow256(front.len()),
                bytes.last() < 256,
        ;
    }
}

/// What eight bytes can hold.
pub proof fn lemma_pow256_8()
    ensures
        pow256(4) == 0x1_0000_0000,
        pow256(8) == 0x1_0000_0000_0000_0000,
{
    reveal_with_fuel(pow256, 9);
}

/// Appends to `w` the `width` lowest bytes of `value`, the highest first.
pub fn write_be(w: &mut Vec<u8>, value: u64, width: usize)
    requires
        width <= 8,
    ensures
        final(w)@ == old(w)@ + be_bytes(value as nat, width as nat),
{
    let mut digits: Vec<u8> = Vec::new();
    let mut rest = value;
    let mut i: usize = 0;
    while i < width
        invariant
            i <= width,
            digits@.len() == i,
            forall|k: nat|
                k >= i ==> #[trigger] be_bytes(value as nat, k) =~= be_bytes(
                    rest as nat,
                    (k - i) as nat,
                ) + digits@.reverse(),
        decreases width - i,
    {
        let ghost before = digits@;
        let ghost low = rest;
        digits.push((rest % 256) as u8);
        rest = rest / 256;
        i = i + 1;
        proof {
            assert forall|k: nat| k >= i implies #[trigger] be_bytes(value as nat, k) =~= be_bytes(
                rest as nat,
                (k - i) as nat,
            ) + digits@.reverse() by {
                assert(be_bytes(low as nat, (k - i + 1) as nat) == be_bytes(
                    rest as nat,
                    (k - i) as nat,
                ).push((low % 256) as u8));
                assert(digits@.reverse() =~= seq![(low % 256) as u8] + before.reverse());
            }
        }
    }
    let ghost start = w@;
    let mut j: usize = width;
    while j > 0
        invariant
            j <= width,
            digits@.len() == width,
            w@ == start + digits@.reverse().take(width - j),
        decreases j,
    {
        j = j - 1;
        w.push(digits[j]);
        proof {
            assert(w@ =~= start + digits@.reverse().take(width - j));
        }
    }
    proof {
        assert(be_bytes(value as nat, width as nat) =~= be_bytes(rest as nat, 0) + digits@.reverse());
        assert(digits@.reverse().take(width as int) =~= digits@.reverse());
    }
}

/// The number that the bytes of `r` spell, the highest byte first.
pub fn read_be(r: &[u8]) -> (value: u64)
    requires
        r@.len() <= 8,
    ensures
        value == be_value(r@),
{
    let mut value: u64 = 0;
    let mut i: usize = 0;
    while i < r.len()
        invariant
            i <= r@.len() <= 8,
            value == be_value(r@.take(i as int)),
        decreases r@.len() - i,
    {
        proof {
            lemma_be_bytes_of_value(r@.take(i as int));
            lemma_pow256_monotone(i as nat, 7);
            lemma_pow256_8();
            reveal_with_fuel(pow256, 9);
            assert(r@.take(i + 1).drop_last() =~= r@.take(i as int));
        }
        value = value * 256 + r[i] as u64;
        i = i + 1;
    }
    proof {
        assert(r@.take(i as int) =~= r@);
    }
    value
}

/// More bytes hold more.
pub proof fn lemma_pow256_monotone(a: nat, b: nat)
    requires
        a <= b,
    ensures
        pow256(a) <= pow256(b),
    decreases b,
{
    if a < b {
        lemma_pow256_monotone(a, (b - 1) as nat);
    }
}

/// A value that can be written as bytes.
pub trait Serialize {
    /// Whether the value has an encoding.
    spec fn encodable(&self) -> bool;

    /// The bytes the value is written as.
    spec fn encoding(&self) -> Seq<u8>;

    /// Appends the value's encoding to `w` and returns its length. A value
    /// without an encoding is refused as `InvalidInput`, and `w` stays as it was.
    fn serialize(&self, w: &mut Vec<u8>) -> (r: Result<usize, Error>)
        ensures
            r is Ok <==> self.encodable(),
            r matches Ok(n) ==> n == self.encoding().len() && final(w)@ == old(w)@
                + self.encoding(),
            r matches Err(e) ==> e == Error::InvalidInput && final(w)@ == old(w)@,
    ;
}

/// A value that has a default to start reading from.
pub trait Blank: Sized + DeepView + Default {
    /// The view of the type's default value.
    spec fn blank() -> Self::V;

    /// The default value is blank.
    proof fn default_is_blank(d: Self)
        requires
            call_ensures(Self::default, (), d),
        ensures
            d.deep_view() == Self::blank(),
    ;
}

/// A value that can be read from bytes.
pub trait Deserialize: Sized + DeepView {
    /// What a value of this type is after reading it from the front of `input`
    /// when it was `before`, and how many bytes the reading takes; `None` where
    /// `input` ends too early or does not encode a value.
    spec fn decode(before: Self::V, input: Seq<u8>) -> Option<(Self::V, nat)>;

    /// Reads the value from the front of `r` and returns how many bytes that
    /// took. Input that does not decode is refused as `InvalidInput`, and the
    /// value stays as it was.
    fn deserialize(&mut self, r: &[u8]) -> (res: Result<usize, Error>)
        ensures
            match Self::decode(old(self).deep_view(), r@) {
                Some((value, n)) => {
                    &&& res == Ok::<usize, Error>(n as usize)
                    &&& n <= r@.len()
                    &&& final(self).deep_view() == value
                },
                None => {
                    &&& res == Err::<usize, Error>(Error::InvalidInput)
                    &&& final(self).deep_view() == old(self).deep_view()
                },
            },
    ;

    /// Reads a value from the front of `r`, starting from the type's default.
    fn deserialize_into_default(r: &[u8]) -> (res: Result<Self, Error>) where Self: Blank
        ensures
            match Self::decode(Self::blank(), r@) {
                Some((value, n)) => res matches Ok(v) && v.deep_view() == value,
                None => res matches Err(e) && e == Error::InvalidInput,
            },
    {
        let mut this = Self::default();
        proof {
            Self::default_is_blank(this);
        }
        match this.deserialize(r) {
            Ok(_) => Ok(this),
            Err(e) => Err(e),
        }
    }
}

/// A type whose values are read back from the bytes they are written as.
pub trait RoundTrip: Serialize + Deserialize + Blank {
    /// Reading a blank value from the encoding of `self`, whatever follows
    /// it, gives `self` and takes the encoding's length.
    proof fn lemma_round_trip(&self, rest: Seq<u8>)
        requires
            self.encodable(),
        ensures
            Self::decode(Self::blank(), self.encoding() + rest) == Some(
                (self.deep_view(), self.encoding().len()),
            ),
    ;
}

impl Serialize for u8 {
    open spec fn encodable(&self) -> bool {
        true
    }

    open spec fn encoding(&self) -> Seq<u8> {
        seq![*self]
    }

    fn serialize(&self, w: &mut Vec<u8>) -> (r: Result<usize, Error>) {
        w.push(*self);
        proof {
            assert(w@ =~= old(w)@ + seq![*self]);
        }
        Ok(1)
    }
}

impl Deserialize for u8 {
    open spec fn decode(before: u8, input: Seq<u8>) -> Option<(u8, nat)> {
        if input.len() >= 1 {
            Some((input[0], 1))
        } else {
            None
        }
    }

    fn deserialize(&mut self, r: &[u8]) -> (res: Result<usize, Error>) {
        if r.len() < 1 {
            return Err(Error::InvalidInput);
        }
        *self = r[0];
        Ok(1)
    }
}

impl Blank for u8 {
    open spec fn blank() -> u8 {
        0
    }

    proof fn default_is_blank(d: Self) {
    }
}

impl RoundTrip for u8 {
    proof fn lemma_round_trip(&self, rest: Seq<u8>) {
    }
}

impl Serialize for u64 {
    open spec fn encodable(&self) -> bool {
        true
    }

    open spec fn encoding(&self) -> Seq<u8> {
        be_bytes(*self as nat, 8)
    }

    fn serialize(&self, w: &mut Vec<u8>) -> (r: Result<usize, Error>) {
        write_be(w, *self, 8);
        proof {
            lemma_be_bytes_len(*self as nat, 8);
        }
        Ok(8)
    }
}

impl Deserialize for u64 {
    open spec fn decode(before: u64, input: Seq<u8>) -> Option<(u64, nat)> {
        if input.len() >= 8 {
            Some((be_value(input.take(8)) as u64, 8))
        } else {
            None
        }
    }

    fn deserialize(&mut self, r: &[u8]) -> (res: Result<usize, Error>) {
        if r.len() < 8 {
            return Err(Error::InvalidInput);
        }
        *self = read_be(vstd::slice::slice_subrange(r, 0, 8));
        Ok(8)
    }
}

impl Blank for u64 {
    open spec fn blank() -> u64 {
        0
    }

    proof fn default_is_blank(d: Self) {
    }
}

impl RoundTrip for u64 {
    proof fn lemma_round_trip(&self, rest: Seq<u8>) {
        lemma_pow256_8();
        lemma_be_round_trip(*self as nat, 8, rest);
    }
}

/// A number that fits in `width` bytes is read back from its bytes, whatever
/// follows them.
pub proof fn lemma_be_round_trip(value: nat, width: nat, rest: Seq<u8>)
    requires
        value < pow256(width),
    ensures
        be_bytes(value, width).len() == width,
        (be_bytes(value, width) + rest).take(width as int) == be_bytes(value, width),
        (be_bytes(value, width) + rest).skip(width as int) == rest,
        be_value((be_bytes(value, width) + rest).take(width as int)) == value,
{
    lemma_be_bytes_len(value, width);
    lemma_be_value_of_bytes(value, width);
    assert((be_bytes(value, width) + rest).take(width as int) =~= be_bytes(value, width));
    assert((be_bytes(value, width) + rest).skip(width as int) =~= rest);
}

impl Serialize for usize {
    open spec fn encodable(&self) -> bool {
        true
    }

    open spec fn encoding(&self) -> Seq<u8> {
        be_bytes(*self as nat, 8)
    }

    fn serialize(&self, w: &mut Vec<u8>) -> (r: Result<usize, Error>) {
        (*self as u64).serialize(w)
    }
}

impl Deserialize for usize {
    /// A number that a `usize` cannot hold does not decode.
    open spec fn decode(before: usize, input: Seq<u8>) -> Option<(usize, nat)> {
        if input.len() >= 8 && be_value(input.take(8)) <= usize::MAX {
            Some((be_value(input.take(8)) as usize, 8))
        } else {
            None
        }
    }

    fn deserialize(&mut self, r: &[u8]) -> (res: Result<usize, Error>) {
        let mut fixed_size: u64 = 0;
        let n = fixed_size.deserialize(r)?;
        proof {
            lemma_be_bytes_of_value(r@.take(8));
            lemma_pow256_8();
        }
        if fixed_size > usize::MAX as u64 {
            return Err(Error::InvalidInput);
        }
        *self = fixed_size as usize;
        Ok(n)
    }
}

impl Blank for usize {
    open spec fn blank() -> usize {
        0
    }

    proof fn default_is_blank(d: Self) {
    }
}

impl RoundTrip for usize {
    proof fn lemma_round_trip(&self, rest: Seq<u8>) {
        lemma_pow256_8();
        assert(*self <= u64::MAX);
        lemma_be_round_trip(*self as nat, 8, rest);
    }
}

/// The encodings of `items`, one after the other.
pub open spec fn encodings<T: Serialize>(items: Seq<T>) -> Seq<u8>
    decreases items.len(),
{
    if items.len() == 0 {
        Seq::empty()
    } else {
        encodings(items.drop_last()) + items.last().encoding()
    }
}

/// `count` values read one after the other from the front of `input`, each
/// from a blank value, and the number of bytes that takes.
pub open spec fn decode_items<T: Deserialize + Blank>(input: Seq<u8>, count: nat) -> Option<
    (Seq<T::V>, nat),
>
    decreases count,
{
    if count == 0 {
        Some((Seq::empty(), 0))
    } else {
        match T::decode(T::blank(), input) {
            None => None,
            Some((first, n)) => match decode_items::<T>(input.skip(n as int), (count - 1) as nat) {
                None => None,
                Some((rest, m)) => Some((seq![first] + rest, n + m)),
            },
        }
    }
}

/// What reading `count` values comes to once the values of `done` have been
/// read from the first `used` bytes and `tail` says how the rest goes.
pub open spec fn decode_joined<V>(done: Seq<V>, used: nat, tail: Option<(Seq<V>, nat)>) -> Option<
    (Seq<V>, nat),
> {
    match tail {
        None => None,
        Some((rest, m)) => Some((done + rest, used + m)),
    }
}

impl<T: Serialize> Serialize for Vec<T> {
    open spec fn encodable(&self) -> bool {
        &&& self@.len() <= usize::MAX
        &&& forall|i: int| 0 <= i < self@.len() ==> (#[trigger] self@[i]).encodable()
    }

    /// The number of items in eight bytes, then the items in order.
    open spec fn encoding(&self) -> Seq<u8> {
        be_bytes(self@.len(), 8) + encodings(self@)
    }

    fn serialize(&self, w: &mut Vec<u8>) -> (r: Result<usize, Error>) {
        let start = w.len();
        let _ = self.len().serialize(w);
        let mut i: usize = 0;
        while i < self.len()
            invariant
                i <= self@.len(),
                start == old(w)@.len(),
                w@ == old(w)@ + be_bytes(self@.len(), 8) + encodings(self@.take(i as int)),
                forall|j: int| 0 <= j < i ==> (#[trigger] self@[j]).encodable(),
            decreases self@.len() - i,
        {
            match self[i].serialize(w) {
                Ok(_) => {},
                Err(e) => {
                    w.truncate(start);
                    proof {
                        assert(w@ =~= old(w)@);
                    }
                    return Err(e);
                },
            }
            proof {
                assert(self@.take(i + 1).drop_last() =~= self@.take(i as int));
                assert(w@ =~= old(w)@ + be_bytes(self@.len(), 8) + encodings(self@.take(i + 1)));
            }
            i = i + 1;
        }
        proof {
            assert(self@.take(i as int) =~= self@);
            assert(w@ =~= old(w)@ + self.encoding());
        }
        Ok(w.len() - start)
    }
}

impl<T: Deserialize + Blank> Deserialize for Vec<T> {
    /// The number of items in eight bytes, then the items in order, each read
    /// from a blank value. The items read are added behind those of `before`.
    open spec fn decode(before: Seq<T::V>, input: Seq<u8>) -> Option<(Seq<T::V>, nat)> {
        match usize::decode(0, input) {
            None => None,
            Some((count, _)) => match decode_items::<T>(input.skip(8), count as nat) {
                None => None,
                Some((items, n)) => Some((before + items, 8 + n)),
            },
        }
    }

    fn deserialize(&mut self, r: &[u8]) -> (res: Result<usize, Error>) {
        let mut count: usize = 0;
        let start = self.len();
        let mut used = count.deserialize(r)?;
        let ghost before = self.deep_view();
        let ghost whole = decode_items::<T>(r@.skip(8), count as nat);
        let mut i: usize = 0;
        while i < count
            invariant
                i <= count,
                8 <= used <= r@.len(),
                start == before.len(),
                before == old(self).deep_view(),
                self.deep_view().len() == start + i,
                self.deep_view().take(start as int) == before,
                usize::decode(0, r@) == Some((count, 8nat)),
                whole == decode_items::<T>(r@.skip(8), count as nat),
                whole == decode_joined(
                    self.deep_view().skip(start as int),
                    (used - 8) as nat,
                    decode_items::<T>(r@.skip(used as int), (count - i) as nat),
                ),
            decreases count - i,
        {
            let mut t = T::default();
            proof {
                T::default_is_blank(t);
            }
            let ghost views = self.deep_view();
            let rest = vstd::slice::slice_subrange(r, used, r.len());
            match t.deserialize(rest) {
                Ok(n) => {
                    self.push(t);
                    proof {
                        assert(self.deep_view() =~= views.push(t.deep_view()));
                        assert(r@.skip(used as int).skip(n as int) =~= r@.skip(used + n));
                        assert(self.deep_view().skip(start as int) =~= views.skip(start as int)
                            + seq![t.deep_view()]);
                        let tail = decode_items::<T>(r@.skip(used + n), (count - i - 1) as nat);
                        if let Some((rest_items, m)) = tail {
                            assert(views.skip(start as int) + (seq![t.deep_view()] + rest_items)
                                =~= self.deep_view().skip(start as int) + rest_items);
                        }
                        assert(self.deep_view().take(start as int) =~= before);
                    }
                    used = used + n;
                },
                Err(e) => {
                    self.truncate(start);
                    proof {
                        assert(self.deep_view() =~= before);
                        assert(rest@ =~= r@.skip(used as int));
                        assert(decode_items::<T>(r@.skip(used as int), (count - i) as nat) is None);
                    }
                    return Err(e);
                },
            }
            i = i + 1;
        }
        proof {
            assert(before + self.deep_view().skip(start as int) =~= self.deep_view());
        }
        Ok(used)
    }
}

impl<T: Deserialize + Blank> Blank for Vec<T> {
    open spec fn blank() -> Seq<T::V> {
        Seq::empty()
    }

    proof fn default_is_blank(d: Self) {
        assert(d.deep_view() =~= Seq::empty());
    }
}

/// The encodings of items begin with the encoding of the first.
pub proof fn lemma_encodings_front<T: Serialize>(first: T, rest: Seq<T>)
    ensures
        encodings(seq![first] + rest) == first.encoding() + encodings(rest),
    decreases rest.len(),
{
    let all = seq![first] + rest;
    if rest.len() == 0 {
        assert(all.drop_last() =~= Seq::<T>::empty());
        assert(all.last() == first);
        assert(encodings(all) == encodings(all.drop_last()) + all.last().encoding());
        assert(encodings(all) =~= first.encoding() + encodings(rest));
    } else {
        assert(all.drop_last() =~= seq![first] + rest.drop_last());
        assert(all.last() == rest.last());
        lemma_encodings_front(first, rest.drop_last());
        assert(encodings(all) == encodings(all.drop_last()) + all.last().encoding());
        assert(encodings(rest) == encodings(rest.drop_last()) + rest.last().encoding());
        assert(encodings(all) =~= first.encoding() + encodings(rest));
    }
}

/// Items are read back from their encodings, whatever follows them.
pub proof fn lemma_items_round_trip<T: RoundTrip>(items: Seq<T>, rest: Seq<u8>)
    requires
        forall|i: int| 0 <= i < items.len() ==> (#[trigger] items[i]).encodable(),
    ensures
        decode_items::<T>(encodings(items) + rest, items.len()) == Some(
            (Seq::new(items.len(), |i: int| items[i].deep_view()), encodings(items).len()),
        ),
    decreases items.len(),
{
    let views = Seq::new(items.len(), |i: int| items[i].deep_view());
    if items.len() == 0 {
        assert(views =~= Seq::empty());
    } else {
        let first = items[0];
        let tail = items.drop_first();
        assert(items =~= seq![first] + tail);
        lemma_encodings_front(first, tail);
        let input = encodings(items) + rest;
        assert(input =~= first.encoding() + (encodings(tail) + rest));
        first.lemma_round_trip(encodings(tail) + rest);
        assert(input.skip(first.encoding().len() as int) =~= encodings(tail) + rest);
        lemma_items_round_trip(tail, rest);
        assert(seq![first.deep_view()] + Seq::new(tail.len(), |i: int| tail[i].deep_view())
            =~= views);
    }
}

impl<T: RoundTrip> RoundTrip for Vec<T> {
    proof fn lemma_round_trip(&self, rest: Seq<u8>) {
        lemma_pow256_8();
        assert(usize::MAX <= u64::MAX);
        lemma_be_round_trip(self@.len(), 8, encodings(self@) + rest);
        assert(self.encoding() + rest =~= be_bytes(self@.len(), 8) + (encodings(self@) + rest));
        lemma_items_round_trip(self@, rest);
        assert(Seq::<T::V>::empty() + self.deep_view() =~= self.deep_view());
    }
}

impl<'a> Serialize for &'a [u8] {
    open spec fn encodable(&self) -> bool {
        true
    }

    /// The bytes themselves, with nothing before them.
    open spec fn encoding(&self) -> Seq<u8> {
        self@
    }

    fn serialize(&self, w: &mut Vec<u8>) -> (r: Result<usize, Error>) {
        let mut i: usize = 0;
        while i < self.len()
            invariant
                i <= self@.len(),
                w@ == old(w)@ + self@.take(i as int),
            decreases self@.len() - i,
        {
            w.push(self[i]);
            proof {
                assert(w@ =~= old(w)@ + self@.take(i + 1));
            }
            i = i + 1;
        }
        proof {
            assert(self@.take(i as int) =~= self@);
        }
        Ok(self.len())
    }
}

/// Whether a text has an encoding: whether a `usize` counts its bytes.
pub open spec fn text_encodable(text: Seq<char>) -> bool {
    vstd::utf8::encode_utf8(text).len() <= usize::MAX
}

/// The bytes a text is written as: the number of its bytes in UTF-8 in eight
/// bytes, then those bytes.
pub open spec fn text_encoding(text: Seq<char>) -> Seq<u8> {
    be_bytes(vstd::utf8::encode_utf8(text).len(), 8) + vstd::utf8::encode_utf8(text)
}

/// Fills `buf` from the front of `r` and returns its length: as many bytes
/// as `buf` has, with nothing before them. Input with fewer bytes is
/// refused as `InvalidInput`, and `buf` stays as it was.
pub fn deserialize_bytes(buf: &mut [u8], r: &[u8]) -> (res: Result<usize, Error>)
    ensures
        final(buf)@.len() == old(buf)@.len(),
        r@.len() >= old(buf)@.len() ==> res == Ok::<usize, Error>(old(buf)@.len() as usize)
            && final(buf)@ == r@.take(old(buf)@.len() as int),
        r@.len() < old(buf)@.len() ==> res == Err::<usize, Error>(Error::InvalidInput)
            && final(buf)@ == old(buf)@,
{
    let len = buf.len();
    if r.len() < len {
        return Err(Error::InvalidInput);
    }
    let mut i: usize = 0;
    while i < len
        invariant
            i <= len <= r@.len(),
            buf@.len() == len,
            buf@.take(i as int) == r@.take(i as int),
        decreases len - i,
    {
        buf[i] = r[i];
        proof {
            assert(buf@.take(i + 1) =~= r@.take(i + 1));
        }
        i = i + 1;
    }
    proof {
        assert(buf@.take(len as int) =~= buf@);
    }
    Ok(len)
}

impl<'a> Serialize for &'a str {
    open spec fn encodable(&self) -> bool {
        text_encodable(self@)
    }

    open spec fn encoding(&self) -> Seq<u8> {
        text_encoding(self@)
    }

    fn serialize(&self, w: &mut Vec<u8>) -> (r: Result<usize, Error>) {
        let start = w.len();
        let bytes = self.as_bytes();
        let _ = bytes.len().serialize(w);
        let _ = bytes.serialize(w);
        proof {
            lemma_be_bytes_len(bytes@.len(), 8);
            assert(bytes@ == self.spec_bytes());
            assert(w@ =~= old(w)@ + self.encoding());
        }
        Ok(w.len() - start)
    }
}

/// The text that `String::from_utf8_lossy` makes of `bytes`.
pub uninterp spec fn lossy_text(bytes: Seq<u8>) -> Seq<char>;

/// The text that bytes are read as: where they are valid UTF-8, the text
/// they encode; else what `String::from_utf8_lossy` makes of them, which puts
/// U+FFFD in place of each malformed part.
pub open spec fn text_of(bytes: Seq<u8>) -> Seq<char> {
    if vstd::utf8::valid_utf8(bytes) {
        vstd::utf8::decode_utf8(bytes)
    } else {
        lossy_text(bytes)
    }
}

/// Calls `String::from_utf8_lossy`. The text it returns depends on the bytes
/// alone; where they are valid UTF-8 it is the text they encode.
#[verifier::external_body]
pub(crate) fn utf8_lossy(bytes: &[u8]) -> (text: String)
    ensures
        text@ == text_of(bytes@),
        !vstd::utf8::valid_utf8(bytes@) ==> text@ == lossy_text(bytes@),
{
    String::from_utf8_lossy(bytes).into_owned()
}

impl Deserialize for String {
    /// The number of bytes of the text in eight bytes, then the text in UTF-8.
    open spec fn decode(before: Seq<char>, input: Seq<u8>) -> Option<(Seq<char>, nat)> {
        match usize::decode(0, input) {
            None => None,
            Some((len, _)) => if input.len() >= 8 + len {
                Some((text_of(input.subrange(8, 8 + len)), (8 + len) as nat))
            } else {
                None
            },
        }
    }

    fn deserialize(&mut self, r: &[u8]) -> (res: Result<usize, Error>) {
        let mut len: usize = 0;
        let n = len.deserialize(r)?;
        if r.len() - n < len {
            return Err(Error::InvalidInput);
        }
        *self = utf8_lossy(vstd::slice::slice_subrange(r, n, n + len));
        Ok(n + len)
    }
}

impl Blank for String {
    open spec fn blank() -> Seq<char> {
        Seq::empty()
    }

    proof fn default_is_blank(d: Self) {
    }
}

/// A text is read back from the bytes it is written as: reading a `String`
/// from the encoding of `text`, whatever follows it, gives `text` and takes
/// the encoding's length.
pub proof fn lemma_text_round_trip(text: Seq<char>, before: Seq<char>, rest: Seq<u8>)
    requires
        text_encodable(text),
    ensures
        String::decode(before, text_encoding(text) + rest) == Some(
            (text, text_encoding(text).len()),
        ),
{
    let bytes = vstd::utf8::encode_utf8(text);
    lemma_pow256_8();
    assert(usize::MAX <= u64::MAX);
    lemma_be_round_trip(bytes.len(), 8, bytes + rest);
    let input = text_encoding(text) + rest;
    assert(input =~= be_bytes(bytes.len(), 8) + (bytes + rest));
    assert(input.subrange(8, 8 + bytes.len() as int) =~= bytes);
    vstd::utf8::encode_utf8_valid_utf8(text);
    vstd::utf8::encode_utf8_decode_utf8(text);
}

} // verus!
