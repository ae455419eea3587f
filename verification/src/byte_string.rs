//! Binary-safe strings: an owned buffer and a borrowed view over arbitrary
//! bytes, with ASCII case folding, lossy display and decimal integer parsing.

use vstd::prelude::*;
use vstd::std_specs::convert::FromSpecImpl;
use vstd::string::StringSliceAdditionalSpecFns;
use vstd::utf8::{decode_utf8, valid_utf8};

pub mod from_bytes;

pub use from_bytes::{from_bytes, parsed, Number, ParseIntError};

verus! {

/// The ASCII lower-case form of one byte.
pub open spec fn lower_byte(b: u8) -> u8 {
    if 0x41 <= b <= 0x5a {
        (b + 0x20) as u8
    } else {
        b
    }
}

/// The ASCII upper-case form of one byte.
pub open spec fn upper_byte(b: u8) -> u8 {
    if 0x61 <= b <= 0x7a {
        (b - 0x20) as u8
    } else {
        b
    }
}

/// The ASCII lower-case form of a byte sequence.
pub open spec fn lower_bytes(s: Seq<u8>) -> Seq<u8> {
    Seq::new(s.len(), |i: int| lower_byte(s[i]))
}

/// The ASCII upper-case form of a byte sequence.
pub open spec fn upper_bytes(s: Seq<u8>) -> Seq<u8> {
    Seq::new(s.len(), |i: int| upper_byte(s[i]))
}

/// Equality of two byte sequences up to ASCII letter case.
pub open spec fn eq_ignoring_case(a: Seq<u8>, b: Seq<u8>) -> bool {
    lower_bytes(a) == lower_bytes(b)
}

/// The byte sequences that a sequence of owned strings holds.
pub open spec fn views(s: Seq<ByteString>) -> Seq<Seq<u8>> {
    s.map_values(|b: ByteString| b@)
}

/// Taking the views of owned strings goes along with building sequences:
/// with adding an item at either end or in the middle, and with removing
/// one.
pub proof fn lemma_views_edit(s: Seq<ByteString>, x: ByteString, i: int)
    ensures
        views(s).len() == s.len(),
        views(s.push(x)) == views(s).push(x@),
        views(seq![x] + s) == seq![x@] + views(s),
        0 <= i <= s.len() ==> views(s.insert(i, x)) == views(s).insert(i, x@),
        0 <= i < s.len() ==> views(s.remove(i)) == views(s).remove(i),
        0 <= i < s.len() ==> views(s)[i] == s[i]@,
        0 <= i <= s.len() ==> views(s.take(i)) == views(s).take(i),
        0 <= i <= s.len() ==> views(s.skip(i)) == views(s).skip(i),
{
    assert(views(s.push(x)) =~= views(s).push(x@));
    assert(views(seq![x] + s) =~= seq![x@] + views(s));
    if 0 <= i <= s.len() {
        assert(views(s.insert(i, x)) =~= views(s).insert(i, x@));
        assert(views(s.take(i)) =~= views(s).take(i));
        assert(views(s.skip(i)) =~= views(s).skip(i));
    }
    if 0 <= i < s.len() {
        assert(views(s.remove(i)) =~= views(s).remove(i));
    }
}

/// The text that a byte sequence is shown as: its UTF-8 decoding, with each
/// invalid sequence replaced by U+FFFD.
pub uninterp spec fn utf8_lossy(bytes: Seq<u8>) -> Seq<char>;

/// The bytes of the text that a byte sequence is shown as. For valid UTF-8
/// these are the bytes themselves.
pub open spec fn shown(bytes: Seq<u8>) -> Seq<u8> {
    vstd::utf8::encode_utf8(utf8_lossy(bytes))
}

/// Folds one byte to ASCII lower case.
pub fn to_ascii_lower(b: u8) -> (r: u8)
    ensures
        r == lower_byte(b),
{
    if 0x41 <= b && b <= 0x5a {
        b + 0x20
    } else {
        b
    }
}

/// Folds one byte to ASCII upper case.
pub fn to_ascii_upper(b: u8) -> (r: u8)
    ensures
        r == upper_byte(b),
{
    if 0x61 <= b && b <= 0x7a {
        b - 0x20
    } else {
        b
    }
}

/// Byte-exact equality of two slices.
pub fn slice_eq(a: &[u8], b: &[u8]) -> (r: bool)
    ensures
        r == (a@ == b@),
{
    if a.len() != b.len() {
        return false;
    }
    let mut i: usize = 0;
    while i < a.len()
        invariant
            a.len() == b.len(),
            i <= a.len(),
            forall|j: int| 0 <= j < i ==> a@[j] == b@[j],
        decreases a.len() - i,
    {
        if a[i] != b[i] {
            return false;
        }
        i += 1;
    }
    assert(a@ =~= b@);
    true
}

/// Equality of two slices up to ASCII letter case.
pub fn slice_eq_ignore_ascii_case(a: &[u8], b: &[u8]) -> (r: bool)
    ensures
        r == eq_ignoring_case(a@, b@),
{
    if a.len() != b.len() {
        assert(lower_bytes(a@).len() != lower_bytes(b@).len());
        return false;
    }
    let mut i: usize = 0;
    while i < a.len()
        invariant
            a.len() == b.len(),
            i <= a.len(),
            forall|j: int| 0 <= j < i ==> lower_byte(a@[j]) == lower_byte(b@[j]),
        decreases a.len() - i,
    {
        if to_ascii_lower(a[i]) != to_ascii_lower(b[i]) {
            assert(lower_bytes(a@)[i as int] != lower_bytes(b@)[i as int]);
            return false;
        }
        i += 1;
    }
    assert(lower_bytes(a@) =~= lower_bytes(b@));
    true
}

/// A copy of a slice with every ASCII letter in lower case.
pub fn slice_to_lowercase(a: &[u8]) -> (r: Vec<u8>)
    ensures
        r@ == lower_bytes(a@),
{
    let mut out: Vec<u8> = Vec::with_capacity(a.len());
    let mut i: usize = 0;
    while i < a.len()
        invariant
            i <= a.len(),
            out@ == lower_bytes(a@.take(i as int)),
        decreases a.len() - i,
    {
        out.push(to_ascii_lower(a[i]));
        i += 1;
        assert(out@ =~= lower_bytes(a@.take(i as int)));
    }
    assert(a@.take(a.len() as int) =~= a@);
    out
}

/// A copy of a slice with every ASCII letter in upper case.
pub fn slice_to_uppercase(a: &[u8]) -> (r: Vec<u8>)
    ensures
        r@ == upper_bytes(a@),
{
    let mut out: Vec<u8> = Vec::with_capacity(a.len());
    let mut i: usize = 0;
    while i < a.len()
        invariant
            i <= a.len(),
            out@ == upper_bytes(a@.take(i as int)),
        decreases a.len() - i,
    {
        out.push(to_ascii_upper(a[i]));
        i += 1;
        assert(out@ =~= upper_bytes(a@.take(i as int)));
    }
    assert(a@.take(a.len() as int) =~= a@);
    out
}

/// An owned copy of a slice.
pub fn slice_to_owned(a: &[u8]) -> (r: Vec<u8>)
    ensures
        r@ == a@,
{
    let mut out: Vec<u8> = Vec::with_capacity(a.len());
    let mut i: usize = 0;
    while i < a.len()
        invariant
            i <= a.len(),
            out@ == a@.take(i as int),
        decreases a.len() - i,
    {
        out.push(a[i]);
        i += 1;
        assert(out@ =~= a@.take(i as int));
    }
    assert(a@.take(a.len() as int) =~= a@);
    out
}

/// Appends a slice to a buffer.
pub fn extend_bytes(buffer: &mut Vec<u8>, a: &[u8])
    ensures
        final(buffer)@ == old(buffer)@ + a@,
{
    let ghost start = buffer@;
    let mut i: usize = 0;
    while i < a.len()
        invariant
            i <= a.len(),
            buffer@ == start + a@.take(i as int),
        decreases a.len() - i,
    {
        buffer.push(a[i]);
        i += 1;
        assert(buffer@ =~= start + a@.take(i as int));
    }
    assert(a@.take(a.len() as int) =~= a@);
}

/// `String::from_utf8_lossy`, made an owned `String`: the UTF-8 decoding of
/// the bytes with each invalid sequence replaced by U+FFFD, which for valid
/// UTF-8 is the plain decoding.
#[verifier::external_body]
fn lossy_string(bytes: &[u8]) -> (r: String)
    ensures
        r@ == utf8_lossy(bytes@),
        valid_utf8(bytes@) ==> r@ == decode_utf8(bytes@),
{
    String::from_utf8_lossy(bytes).into_owned()
}

/// Appends the text that a byte string is shown as; valid UTF-8 is shown
/// as it is.
pub fn extend_shown(buffer: &mut Vec<u8>, bytes: &[u8])
    ensures
        final(buffer)@ == old(buffer)@ + shown(bytes@),
        valid_utf8(bytes@) ==> shown(bytes@) == bytes@,
{
    let text = lossy_string(bytes);
    proof {
        if valid_utf8(bytes@) {
            vstd::utf8::decode_utf8_encode_utf8(bytes@);
        }
    }
    extend_bytes(buffer, str::as_bytes(text.as_str()));
}

/// What can be read as a run of bytes.
pub trait AsBytes {
    /// The bytes that `as_bytes` hands out.
    spec fn bytes_view(&self) -> Seq<u8>;

    fn as_bytes(&self) -> (r: &[u8])
        ensures
            r@ == self.bytes_view(),
    ;
}

impl AsBytes for [u8] {
    open spec fn bytes_view(&self) -> Seq<u8> {
        self@
    }

    fn as_bytes(&self) -> (r: &[u8]) {
        self
    }
}

impl<const N: usize> AsBytes for [u8; N] {
    open spec fn bytes_view(&self) -> Seq<u8> {
        self@
    }

    fn as_bytes(&self) -> (r: &[u8]) {
        self.as_slice()
    }
}

impl AsBytes for Vec<u8> {
    open spec fn bytes_view(&self) -> Seq<u8> {
        self@
    }

    fn as_bytes(&self) -> (r: &[u8]) {
        self.as_slice()
    }
}

impl AsBytes for str {
    open spec fn bytes_view(&self) -> Seq<u8> {
        self.spec_bytes()
    }

    fn as_bytes(&self) -> (r: &[u8]) {
        str::as_bytes(self)
    }
}

impl AsBytes for String {
    open spec fn bytes_view(&self) -> Seq<u8> {
        vstd::utf8::encode_utf8(self@)
    }

    fn as_bytes(&self) -> (r: &[u8]) {
        str::as_bytes(self.as_str())
    }
}

impl<T: AsBytes + ?Sized> AsBytes for &T {
    open spec fn bytes_view(&self) -> Seq<u8> {
        (**self).bytes_view()
    }

    fn as_bytes(&self) -> (r: &[u8]) {
        (**self).as_bytes()
    }
}

/// A borrowed view over arbitrary bytes.
#[derive(Clone, Copy, Debug, PartialEq)]
pub struct ByteStr<'inner> {
    bytes: &'inner [u8],
}

/// An owned buffer of arbitrary bytes.
#[derive(Clone, Debug, Default, Eq, Hash, PartialEq)]
pub struct ByteString {
    bytes: Vec<u8>,
}

impl<'inner> View for ByteStr<'inner> {
    type V = Seq<u8>;

    closed spec fn view(&self) -> Seq<u8> {
        self.bytes@
    }
}

impl View for ByteString {
    type V = Seq<u8>;

    closed spec fn view(&self) -> Seq<u8> {
        self.bytes@
    }
}

impl<'inner> AsBytes for ByteStr<'inner> {
    open spec fn bytes_view(&self) -> Seq<u8> {
        self@
    }

    fn as_bytes(&self) -> (r: &[u8]) {
        self.bytes
    }
}

impl AsBytes for ByteString {
    open spec fn bytes_view(&self) -> Seq<u8> {
        self@
    }

    fn as_bytes(&self) -> (r: &[u8]) {
        self.bytes.as_slice()
    }
}

impl<'outer> ByteStr<'outer> {
    pub fn new<T>(other: &'outer T) -> (r: Self) where T: AsBytes + ?Sized
        ensures
            r@ == other.bytes_view(),
    {
        ByteStr { bytes: other.as_bytes() }
    }

    /// The view over a slice.
    pub fn from_slice(bytes: &'outer [u8]) -> (r: Self)
        ensures
            r@ == bytes@,
    {
        ByteStr { bytes }
    }

    /// The bytes themselves.
    pub fn as_slice(&self) -> (r: &'outer [u8])
        ensures
            r@ == self@,
    {
        self.bytes
    }

    pub fn len(&self) -> (r: usize)
        ensures
            r == self@.len(),
    {
        self.bytes.len()
    }

    pub fn to_str_lossy(&self) -> (r: String)
        ensures
            r@ == utf8_lossy(self@),
            valid_utf8(self@) ==> r@ == decode_utf8(self@),
    {
        lossy_string(self.bytes)
    }

    /// The text this shows as, which is that of `to_str_lossy`.
    pub fn to_string(&self) -> (r: String)
        ensures
            r@ == utf8_lossy(self@),
            valid_utf8(self@) ==> r@ == decode_utf8(self@),
    {
        lossy_string(self.bytes)
    }

    pub fn eq_ignore_ascii_case<T>(&self, other: T) -> (r: bool) where T: AsBytes
        ensures
            r == eq_ignoring_case(self@, other.bytes_view()),
    {
        slice_eq_ignore_ascii_case(self.bytes, other.as_bytes())
    }

    /// Byte-exact equality with anything that can be read as bytes.
    pub fn eq_bytes<T>(&self, other: T) -> (r: bool) where T: AsBytes
        ensures
            r == (self@ == other.bytes_view()),
    {
        slice_eq(self.bytes, other.as_bytes())
    }

    pub fn parse<T: Number>(&self) -> (r: Result<T, ParseIntError>)
        ensures
            match r {
                Ok(n) => parsed(self@, T::min_int(), T::max_int()) == Some(n.to_int()),
                Err(_) => parsed(self@, T::min_int(), T::max_int()) is None,
            },
    {
        from_bytes(self.bytes)
    }

    pub fn to_lowercase(&self) -> (r: ByteString)
        ensures
            r@ == lower_bytes(self@),
    {
        ByteString { bytes: slice_to_lowercase(self.bytes) }
    }

    pub fn to_uppercase(&self) -> (r: ByteString)
        ensures
            r@ == upper_bytes(self@),
    {
        ByteString { bytes: slice_to_uppercase(self.bytes) }
    }
}

impl ByteString {
    pub fn new() -> (r: Self)
        ensures
            r@ == Seq::<u8>::empty(),
    {
        ByteString { bytes: Vec::new() }
    }

    /// The owned string that holds the given bytes.
    pub fn from_vec(bytes: Vec<u8>) -> (r: Self)
        ensures
            r@ == bytes@,
    {
        ByteString { bytes }
    }

    /// An owned copy of a slice.
    pub fn from_slice(bytes: &[u8]) -> (r: Self)
        ensures
            r@ == bytes@,
    {
        ByteString { bytes: slice_to_owned(bytes) }
    }

    pub fn as_byte_str(&self) -> (r: ByteStr<'_>)
        ensures
            r@ == self@,
    {
        ByteStr { bytes: self.bytes.as_slice() }
    }

    /// The bytes themselves.
    pub fn as_slice(&self) -> (r: &[u8])
        ensures
            r@ == self@,
    {
        self.bytes.as_slice()
    }

    pub fn into_vec(self) -> (r: Vec<u8>)
        ensures
            r@ == self@,
    {
        self.bytes
    }

    pub fn len(&self) -> (r: usize)
        ensures
            r == self@.len(),
    {
        self.bytes.len()
    }

    /// Appends one byte.
    pub fn push(&mut self, b: u8)
        ensures
            final(self)@ == old(self)@.push(b),
    {
        self.bytes.push(b);
    }

    /// An owned copy with the same bytes.
    pub fn copy(&self) -> (r: Self)
        ensures
            r@ == self@,
    {
        ByteString { bytes: slice_to_owned(self.bytes.as_slice()) }
    }

    /// The text this shows as: the lossy UTF-8 decoding of the bytes.
    pub fn to_string(&self) -> (r: String)
        ensures
            r@ == utf8_lossy(self@),
            valid_utf8(self@) ==> r@ == decode_utf8(self@),
    {
        lossy_string(self.bytes.as_slice())
    }

    /// Byte-exact equality with anything that can be read as bytes.
    pub fn eq_bytes<T>(&self, other: T) -> (r: bool) where T: AsBytes
        ensures
            r == (self@ == other.bytes_view()),
    {
        slice_eq(self.bytes.as_slice(), other.as_bytes())
    }

    pub fn parse<T: Number>(&self) -> (r: Result<T, ParseIntError>)
        ensures
            match r {
                Ok(n) => parsed(self@, T::min_int(), T::max_int()) == Some(n.to_int()),
                Err(_) => parsed(self@, T::min_int(), T::max_int()) is None,
            },
    {
        from_bytes(self.bytes.as_slice())
    }

    pub fn to_lowercase(&self) -> (r: Self)
        ensures
            r@ == lower_bytes(self@),
    {
        self.as_byte_str().to_lowercase()
    }

    pub fn to_uppercase(&self) -> (r: Self)
        ensures
            r@ == upper_bytes(self@),
    {
        self.as_byte_str().to_uppercase()
    }
}


impl<'outer, T> From<&'outer T> for ByteStr<'outer> where T: AsBytes + ?Sized {
    fn from(other: &'outer T) -> (r: Self)
        ensures
            r@ == other.bytes_view(),
    {
        ByteStr { bytes: other.as_bytes() }
    }
}

impl<'outer, T> FromSpecImpl<&'outer T> for ByteStr<'outer> where T: AsBytes + ?Sized {
    open spec fn obeys_from_spec() -> bool {
        false
    }

    open spec fn from_spec(other: &'outer T) -> Self {
        arbitrary()
    }
}

impl From<Vec<u8>> for ByteString {
    fn from(other: Vec<u8>) -> (r: Self)
        ensures
            r@ == other@,
    {
        ByteString { bytes: other }
    }
}

impl FromSpecImpl<Vec<u8>> for ByteString {
    open spec fn obeys_from_spec() -> bool {
        false
    }

    open spec fn from_spec(other: Vec<u8>) -> Self {
        arbitrary()
    }
}

impl From<String> for ByteString {
    fn from(other: String) -> (r: Self)
        ensures
            r@ == vstd::utf8::encode_utf8(other@),
    {
        ByteString { bytes: slice_to_owned(str::as_bytes(other.as_str())) }
    }
}

impl FromSpecImpl<String> for ByteString {
    open spec fn obeys_from_spec() -> bool {
        false
    }

    open spec fn from_spec(other: String) -> Self {
        arbitrary()
    }
}

impl<T> From<&T> for ByteString where T: AsBytes + ?Sized {
    fn from(other: &T) -> (r: Self)
        ensures
            r@ == other.bytes_view(),
    {
        ByteString { bytes: slice_to_owned(other.as_bytes()) }
    }
}

impl<T> FromSpecImpl<&T> for ByteString where T: AsBytes + ?Sized {
    open spec fn obeys_from_spec() -> bool {
        false
    }

    open spec fn from_spec(other: &T) -> Self {
        arbitrary()
    }
}

impl AsRef<[u8]> for ByteStr<'_> {
    fn as_ref(&self) -> (r: &[u8])
        ensures
            r@ == self@,
    {
        self.bytes
    }
}

impl AsRef<[u8]> for ByteString {
    fn as_ref(&self) -> (r: &[u8])
        ensures
            r@ == self@,
    {
        self.bytes.as_slice()
    }
}

impl<'a> core::ops::Deref for ByteStr<'a> {
    type Target = &'a [u8];

    fn deref(&self) -> (r: &&'a [u8])
        ensures
            r@ == self@,
    {
        &self.bytes
    }
}

impl core::ops::Deref for ByteString {
    type Target = Vec<u8>;

    fn deref(&self) -> (r: &Vec<u8>)
        ensures
            r@ == self@,
    {
        &self.bytes
    }
}

impl core::ops::DerefMut for ByteString {
    fn deref_mut(&mut self) -> (r: &mut Vec<u8>)
        ensures
            r@ == old(self)@,
            final(self)@ == final(r)@,
    {
        &mut self.bytes
    }
}

/// Folding case twice is folding it once, and case-insensitive equality is
/// an equivalence that byte equality refines.
pub proof fn lemma_case_folding(a: Seq<u8>, b: Seq<u8>, c: Seq<u8>)
    ensures
        lower_bytes(lower_bytes(a)) == lower_bytes(a),
        upper_bytes(upper_bytes(a)) == upper_bytes(a),
        eq_ignoring_case(a, a),
        eq_ignoring_case(a, lower_bytes(a)),
        eq_ignoring_case(a, upper_bytes(a)),
        eq_ignoring_case(a, b) == eq_ignoring_case(b, a),
        eq_ignoring_case(a, b) && eq_ignoring_case(b, c) ==> eq_ignoring_case(a, c),
{
    assert(lower_bytes(lower_bytes(a)) =~= lower_bytes(a));
    assert(upper_bytes(upper_bytes(a)) =~= upper_bytes(a));
    assert(lower_bytes(upper_bytes(a)) =~= lower_bytes(a));
}

} // verus!
