//! Text encodings: labels, detection from a file's bytes, decoding of one
//! record, and encoding of replacement text.
use vstd::prelude::*;
use vstd::utf8::{decode_utf8, valid_utf8};
use vstd::string::StringSliceAdditionalSpecFns;
use chardetng::{EncodingDetector, Iso2022JpDetection, Utf8Detection};
use encoding_rs::Encoding;
use crate::chars::{push_char, str_eq, str_to_chars};

verus! {

pub const ENCODING_UTF8: &'static str = "utf8";
pub const ENCODING_UTF16_LE: &'static str = "utf16le";
pub const ENCODING_UTF16_BE: &'static str = "utf16be";
pub const ENCODING_GBK: &'static str = "gbk";
pub const ENCODING_GB18030: &'static str = "gb18030";

pub open spec fn utf8_label() -> Seq<char> {
    seq!['u', 't', 'f', '8']
}

pub open spec fn utf16le_label() -> Seq<char> {
    seq!['u', 't', 'f', '1', '6', 'l', 'e']
}

pub open spec fn utf16be_label() -> Seq<char> {
    seq!['u', 't', 'f', '1', '6', 'b', 'e']
}

pub open spec fn gbk_label() -> Seq<char> {
    seq!['g', 'b', 'k']
}

pub open spec fn gb18030_label() -> Seq<char> {
    seq!['g', 'b', '1', '8', '0', '3', '0']
}

/// The labels above are the texts of the label constants.
pub proof fn lemma_label_constants()
    ensures
        ENCODING_UTF8@ == utf8_label(),
        ENCODING_UTF16_LE@ == utf16le_label(),
        ENCODING_UTF16_BE@ == utf16be_label(),
        ENCODING_GBK@ == gbk_label(),
        ENCODING_GB18030@ == gb18030_label(),
{
    reveal_strlit("utf8");
    reveal_strlit("utf16le");
    reveal_strlit("utf16be");
    reveal_strlit("gbk");
    reveal_strlit("gb18030");
    assert(ENCODING_UTF8@ =~= utf8_label());
    assert(ENCODING_UTF16_LE@ =~= utf16le_label());
    assert(ENCODING_UTF16_BE@ =~= utf16be_label());
    assert(ENCODING_GBK@ =~= gbk_label());
    assert(ENCODING_GB18030@ =~= gb18030_label());
}


// ─── Outside items ──────────────────────────────────────────────────────────

#[verifier::external_type_specification]
#[verifier::external_body]
pub struct ExEncoding(Encoding);

#[verifier::external_type_specification]
#[verifier::external_body]
pub struct ExEncodingDetector(EncodingDetector);

/// The canonical name of the encoding that `encoding_rs::Encoding::for_label`
/// returns for a label, if the label names one.
pub uninterp spec fn label_encoding(label: Seq<u8>) -> Option<Seq<char>>;

/// The text that `decode_without_bom_handling` of the named encoding gives
/// for some bytes (malformed input becomes U+FFFD).
pub uninterp spec fn legacy_decode(encoding: Seq<char>, bytes: Seq<u8>) -> Seq<char>;

/// The bytes that `Encoding::encode` of the named encoding gives for a text,
/// and whether some character could not be represented.
pub uninterp spec fn legacy_encode(encoding: Seq<char>, text: Seq<char>) -> (Seq<u8>, bool);

/// The text that `String::from_utf8_lossy` gives for some bytes.
pub uninterp spec fn utf8_lossy(bytes: Seq<u8>) -> Seq<char>;

/// The text that `String::from_utf16_lossy` gives for some code units.
pub uninterp spec fn utf16_lossy(units: Seq<u16>) -> Seq<char>;

/// The canonical name of the encoding that a `chardetng` detector guesses,
/// given all bytes fed to it, whether the stream was closed, whether
/// ISO-2022-JP may be guessed, the top-level domain and whether UTF-8 may be
/// guessed.
pub uninterp spec fn guessed_encoding(
    fed: Seq<u8>,
    closed: bool,
    allow_iso_2022_jp: bool,
    tld: Option<Seq<u8>>,
    allow_utf8: bool,
) -> Seq<char>;

/// A legacy character encoding of `encoding_rs`, with its canonical name.
pub struct Codec {
    encoding: &'static Encoding,
    name: &'static str,
}

impl Codec {
    pub closed spec fn spec_name(&self) -> Seq<char> {
        self.name@
    }

    /// The canonical name of the encoding.
    pub fn name(&self) -> (r: &'static str)
        ensures
            r@ == self.spec_name(),
    {
        self.name
    }

    /// The `encoding_rs` encoding the codec decodes and encodes with.
    pub closed spec fn spec_encoding(&self) -> &'static Encoding {
        self.encoding
    }

    /// The `encoding_rs` encoding itself.
    pub fn encoding(&self) -> (r: &'static Encoding)
        ensures
            r == self.spec_encoding(),
    {
        self.encoding
    }
}

/// `encoding_rs::Encoding::for_label`: the encoding a label names, paired
/// with its canonical name (`Encoding::name`).
#[verifier::external_body]
fn codec_for_label(label: &[u8]) -> (r: Option<Codec>)
    ensures
        r matches Some(c) ==> label_encoding(label@) == Some(c.spec_name()),
        r is None ==> label_encoding(label@) is None,
{
    Encoding::for_label(label).map(|e| Codec { encoding: e, name: e.name() })
}

/// `encoding_rs::GB18030`, whose canonical name is `gb18030`.
#[verifier::external_body]
fn gb18030_codec() -> (r: Codec)
    ensures
        r.spec_name() == gb18030_label(),
{
    Codec { encoding: encoding_rs::GB18030, name: encoding_rs::GB18030.name() }
}

/// `encoding_rs::UTF_8`, whose canonical name is `UTF-8`.
#[verifier::external_body]
fn utf8_codec() -> (r: Codec)
    ensures
        r.spec_name() == seq!['U', 'T', 'F', '-', '8'],
{
    Codec { encoding: encoding_rs::UTF_8, name: encoding_rs::UTF_8.name() }
}

/// `Encoding::decode_without_bom_handling`: the bytes decoded in the codec's
/// encoding. The call sizes its output buffer from the input length and
/// panics when that size overflows, so the input is kept far below it.
#[verifier::external_body]
fn codec_decode(codec: &Codec, bytes: &[u8]) -> (r: String)
    requires
        bytes@.len() <= usize::MAX / 8,
    ensures
        r@ == legacy_decode(codec.spec_name(), bytes@),
{
    codec.encoding.decode_without_bom_handling(bytes).0.into_owned()
}

/// `Encoding::encode`: the text in the codec's output encoding, and whether
/// some character had no representation (such characters are written as
/// numeric character references). Like decoding, it panics when its buffer
/// size overflows, so the input is bounded.
#[verifier::external_body]
fn codec_encode(codec: &Codec, text: &str) -> (r: (Vec<u8>, bool))
    requires
        text.spec_bytes().len() <= usize::MAX / 8,
    ensures
        (r.0@, r.1) == legacy_encode(codec.spec_name(), text@),
{
    let (bytes, _, had_errors) = codec.encoding.encode(text);
    (bytes.into_owned(), had_errors)
}

/// `std::str::from_utf8(..).is_ok()`: whether the bytes are valid UTF-8.
#[verifier::external_body]
fn is_valid_utf8(data: &[u8]) -> (r: bool)
    ensures
        r == valid_utf8(data@),
{
    std::str::from_utf8(data).is_ok()
}

/// `String::from_utf8_lossy`: valid UTF-8 is decoded as it is.
#[verifier::external_body]
pub(crate) fn decode_utf8_lossy(bytes: &[u8]) -> (r: String)
    ensures
        r@ == utf8_lossy(bytes@),
        valid_utf8(bytes@) ==> r@ == decode_utf8(bytes@),
{
    String::from_utf8_lossy(bytes).into_owned()
}

/// `String::from_utf16_lossy`: well-formed UTF-16 is decoded as it is.
#[verifier::external_body]
fn decode_utf16_lossy(units: &[u16]) -> (r: String)
    ensures
        r@ == utf16_lossy(units@),
        (exists|t: Seq<char>| units@ == spec_encode_utf16(t)) ==> spec_encode_utf16(r@) == units@,
{
    String::from_utf16_lossy(units)
}

/// A `chardetng` detector, with what it has been fed.
pub struct Detector {
    inner: EncodingDetector,
    fed: Ghost<Seq<u8>>,
    closed: Ghost<bool>,
    allow_iso_2022_jp: Ghost<bool>,
}

impl Detector {
    pub closed spec fn spec_fed(&self) -> Seq<u8> {
        self.fed@
    }

    pub closed spec fn spec_closed(&self) -> bool {
        self.closed@
    }

    pub closed spec fn spec_allows_iso_2022_jp(&self) -> bool {
        self.allow_iso_2022_jp@
    }
}

/// `EncodingDetector::new`; the setting is kept beside the detector (see
/// [`new_detector`]).
#[verifier::external_body]
fn encoding_detector_new(allow_iso_2022_jp: bool) -> EncodingDetector {
    EncodingDetector::new(if allow_iso_2022_jp { Iso2022JpDetection::Allow } else { Iso2022JpDetection::Deny })
}

/// A detector that has been fed nothing.
fn new_detector(allow_iso_2022_jp: bool) -> (r: Detector)
    ensures
        r.spec_fed() == Seq::<u8>::empty(),
        !r.spec_closed(),
        r.spec_allows_iso_2022_jp() == allow_iso_2022_jp,
{
    Detector {
        inner: encoding_detector_new(allow_iso_2022_jp),
        fed: Ghost(Seq::empty()),
        closed: Ghost(false),
        allow_iso_2022_jp: Ghost(allow_iso_2022_jp),
    }
}

/// `EncodingDetector::feed`: the stream continues with `buffer` and ends if
/// `last`; it panics when called after the stream ended. Returns whether
/// the stream so far holds a byte that is not ASCII.
#[verifier::external_body]
fn feed_detector(d: &mut Detector, buffer: &[u8], last: bool) -> (r: bool)
    requires
        !old(d).spec_closed(),
    ensures
        final(d).spec_fed() == old(d).spec_fed() + buffer@,
        final(d).spec_closed() == last,
        final(d).spec_allows_iso_2022_jp() == old(d).spec_allows_iso_2022_jp(),
        r == exists|i: int| 0 <= i < final(d).spec_fed().len() && final(d).spec_fed()[i] >= 0x80,
{
    d.inner.feed(buffer, last)
}

/// Whether a top-level domain label is one the detector accepts: it must
/// hold no upper-case letter, no period and no non-ASCII byte.
pub open spec fn tld_accepted(tld: Option<Seq<u8>>) -> bool {
    tld matches Some(t) ==> forall|i: int| 0 <= i < t.len() ==> !(0x41 <= t[i] <= 0x5A) && t[i] != 0x2E && t[i] < 0x80
}

/// `EncodingDetector::guess`, paired with the guessed encoding's name.
#[verifier::external_body]
fn guess_detector(d: &Detector, tld: Option<&[u8]>, allow_utf8: bool) -> (r: Codec)
    requires
        tld_accepted(match tld { Some(t) => Some(t@), None => None }),
    ensures
        r.spec_name() == guessed_encoding(
            d.spec_fed(),
            d.spec_closed(),
            d.spec_allows_iso_2022_jp(),
            match tld { Some(t) => Some(t@), None => None },
            allow_utf8,
        ),
{
    let setting = if allow_utf8 { Utf8Detection::Allow } else { Utf8Detection::Deny };
    let e = d.inner.guess(tld, setting);
    Codec { encoding: e, name: e.name() }
}

// ─── UTF-16 ─────────────────────────────────────────────────────────────────

/// The UTF-16 code units of one character.
pub open spec fn char_utf16(c: char) -> Seq<u16> {
    let v = c as u32;
    if v < 0x10000 {
        seq![v as u16]
    } else {
        let w = (v - 0x10000) as u32;
        seq![(0xD800 + w / 0x400) as u16, (0xDC00 + w % 0x400) as u16]
    }
}

/// A character's UTF-16 units: the character itself below `0x10000`, two
/// surrogates above.
pub proof fn lemma_char_units(c: char)
    ensures
        (c as u32) < 0x10000 ==> char_utf16(c) == seq![(c as u32) as u16] && ((c as u32) as u16) as u32 == c as u32,
        (c as u32) < 0x10000 ==> !(0xD800 <= c as u32 <= 0xDFFF),
        (c as u32) >= 0x10000 ==> char_utf16(c).len() == 2
            && 0xD800 <= char_utf16(c)[0] <= 0xDBFF && 0xDC00 <= char_utf16(c)[1] <= 0xDFFF,
{
    vstd::utf8::char_is_scalar(c);
    let v = c as u32;
    if v >= 0x10000 {
        let w = (v - 0x10000) as u32;
        assert(w < 0x100000);
        assert(w / 0x400 < 0x400) by (nonlinear_arith) requires w < 0x100000;
        assert(w % 0x400 < 0x400);
    }
}


proof fn lemma_char_utf16_injective(c1: char, c2: char)
    requires
        char_utf16(c1) == char_utf16(c2),
    ensures
        c1 == c2,
{
    lemma_char_units(c1);
    lemma_char_units(c2);
    let v1 = c1 as u32;
    let v2 = c2 as u32;
    if v1 < 0x10000 && v2 < 0x10000 {
        assert(v1 as u16 == v2 as u16);
        assert(v1 == v2);
    } else if v1 >= 0x10000 && v2 >= 0x10000 {
        let w1 = (v1 - 0x10000) as u32;
        let w2 = (v2 - 0x10000) as u32;
        assert(w1 < 0x100000 && w2 < 0x100000) by { vstd::utf8::char_is_scalar(c1); vstd::utf8::char_is_scalar(c2); }
        assert(w1 / 0x400 < 0x400 && w2 / 0x400 < 0x400) by (nonlinear_arith) requires w1 < 0x100000, w2 < 0x100000;
        assert((0xD800 + w1 / 0x400) as u16 == (0xD800 + w2 / 0x400) as u16);
        assert((0xDC00 + w1 % 0x400) as u16 == (0xDC00 + w2 % 0x400) as u16);
        assert(w1 / 0x400 == w2 / 0x400);
        assert(w1 % 0x400 == w2 % 0x400);
        assert(w1 == w2) by (nonlinear_arith)
            requires w1 / 0x400 == w2 / 0x400, w1 % 0x400 == w2 % 0x400;
    } else {
        assert(char_utf16(c1).len() != char_utf16(c2).len());
    }
    vstd::utf8::char_u32_cast(c1, v1);
    vstd::utf8::char_u32_cast(c2, v2);
}

/// Different texts have different UTF-16 encodings.
pub proof fn lemma_encode_utf16_injective(a: Seq<char>, b: Seq<char>)
    requires
        spec_encode_utf16(a) == spec_encode_utf16(b),
    ensures
        a == b,
    decreases a.len() + b.len(),
{
    if a.len() == 0 || b.len() == 0 {
        if a.len() > 0 {
            lemma_char_units(a.last());
            assert(spec_encode_utf16(a) == spec_encode_utf16(a.drop_last()) + char_utf16(a.last()));
            assert(spec_encode_utf16(a).len() > 0);
        }
        if b.len() > 0 {
            lemma_char_units(b.last());
            assert(spec_encode_utf16(b) == spec_encode_utf16(b.drop_last()) + char_utf16(b.last()));
            assert(spec_encode_utf16(b).len() > 0);
        }
        assert(a.len() == 0 && b.len() == 0);
        assert(a =~= b);
    } else {
        let ca = char_utf16(a.last());
        let cb = char_utf16(b.last());
        let ua = spec_encode_utf16(a.drop_last());
        let ub = spec_encode_utf16(b.drop_last());
        let s = spec_encode_utf16(a);
        assert(s == ua + ca && s == ub + cb);
        lemma_char_units(a.last());
        lemma_char_units(b.last());
        assert(s.last() == ca.last() && s.last() == cb.last());
        assert(ca.len() == cb.len()) by {
            if ca.len() == 1 {
                assert(ca.last() == ca[0]);
            }
            if cb.len() == 1 {
                assert(cb.last() == cb[0]);
            }
        }
        assert(ca =~= cb) by {
            assert forall|i: int| 0 <= i < ca.len() implies ca[i] == cb[i] by {
                assert(s[ua.len() + i] == ca[i]);
                assert(s[ub.len() + i] == cb[i]);
            }
        }
        assert(ua =~= ub) by {
            assert forall|i: int| 0 <= i < ua.len() implies ua[i] == ub[i] by {
                assert(s[i] == ua[i]);
                assert(s[i] == ub[i]);
            }
        }
        lemma_encode_utf16_injective(a.drop_last(), b.drop_last());
        lemma_char_utf16_injective(a.last(), b.last());
        assert(a =~= a.drop_last().push(a.last()));
        assert(b =~= b.drop_last().push(b.last()));
    }
}

/// The text of well-formed UTF-16 units, and what `String::from_utf16_lossy`
/// gives for other units.
pub open spec fn utf16_text(units: Seq<u16>) -> Seq<char> {
    if exists|t: Seq<char>| units == spec_encode_utf16(t) {
        choose|t: Seq<char>| units == spec_encode_utf16(t)
    } else {
        utf16_lossy(units)
    }
}

/// What `String::from_utf16_lossy` gives is the text of the units.
proof fn lemma_utf16_text(units: Seq<u16>, r: Seq<char>)
    requires
        r == utf16_lossy(units),
        (exists|t: Seq<char>| units == spec_encode_utf16(t)) ==> spec_encode_utf16(r) == units,
    ensures
        r == utf16_text(units),
{
    if exists|t: Seq<char>| units == spec_encode_utf16(t) {
        let t = choose|t: Seq<char>| units == spec_encode_utf16(t);
        lemma_encode_utf16_injective(r, t);
    }
}

/// The UTF-16 encoding of a text.
pub open spec fn spec_encode_utf16(t: Seq<char>) -> Seq<u16>
    decreases t.len(),
{
    if t.len() == 0 {
        Seq::empty()
    } else {
        spec_encode_utf16(t.drop_last()) + char_utf16(t.last())
    }
}


/// The UTF-16 code units of a text (`str::encode_utf16`).
pub fn encode_utf16_units(text: &str) -> (r: Vec<u16>)
    ensures
        r@ == spec_encode_utf16(text@),
{
    let chars = str_to_chars(text);
    let mut r: Vec<u16> = Vec::new();
    let mut i: usize = 0;
    while i < chars.len()
        invariant
            chars@ == text@,
            i <= chars@.len(),
            r@ == spec_encode_utf16(chars@.take(i as int)),
        decreases chars@.len() - i,
    {
        let c = chars[i];
        let v = c as u32;
        assert(chars@.take(i as int + 1).drop_last() =~= chars@.take(i as int));
        if v < 0x10000 {
            r.push(v as u16);
        } else {
            proof { vstd::utf8::char_is_scalar(c); }
            let w = v - 0x10000;
            r.push((0xD800 + w / 0x400) as u16);
            r.push((0xDC00 + w % 0x400) as u16);
        }
        i += 1;
        assert(r@ =~= spec_encode_utf16(chars@.take(i as int)));
    }
    assert(chars@.take(chars@.len() as int) =~= chars@);
    r
}

/// The 16-bit code units of `bytes`, two bytes each; a trailing odd byte is ignored.
pub open spec fn units_of(bytes: Seq<u8>, big_endian: bool) -> Seq<u16> {
    Seq::new(bytes.len() / 2, |k: int| {
        if big_endian {
            (bytes[2 * k] as int * 256 + bytes[2 * k + 1] as int) as u16
        } else {
            (bytes[2 * k] as int + bytes[2 * k + 1] as int * 256) as u16
        }
    })
}

fn code_units(bytes: &[u8], big_endian: bool) -> (r: Vec<u16>)
    ensures
        r@ == units_of(bytes@, big_endian),
{
    let len = bytes.len();
    let n = len / 2;
    let mut r: Vec<u16> = Vec::with_capacity(n);
    let mut k: usize = 0;
    while k < n
        invariant
            len == bytes@.len(),
            n == len / 2,
            k <= n,
            r@ == units_of(bytes@, big_endian).take(k as int),
        decreases n - k,
    {
        assert(2 * k + 1 < bytes@.len());
        let a = bytes[2 * k] as u16;
        let b = bytes[2 * k + 1] as u16;
        let unit = if big_endian { a * 256 + b } else { a + b * 256 };
        r.push(unit);
        k += 1;
        assert(r@ =~= units_of(bytes@, big_endian).take(k as int));
    }
    assert(units_of(bytes@, big_endian).take(n as int) =~= units_of(bytes@, big_endian));
    r
}

// ─── Labels and codecs ──────────────────────────────────────────────────────

/// The name of the `encoding_rs` codec used for an encoding label: GB18030
/// for `gb18030`, otherwise the encoding the label names, or UTF-8.
pub open spec fn spec_codec_name(encoding: Seq<char>) -> Seq<char> {
    if encoding == gb18030_label() {
        gb18030_label()
    } else {
        match label_encoding(vstd::utf8::encode_utf8(encoding)) {
            Some(name) => name,
            None => seq!['U', 'T', 'F', '-', '8'],
        }
    }
}

/// The codec used to read and write text in a legacy encoding.
pub fn codec_for_encoding(encoding: &str) -> (r: Codec)
    ensures
        r.spec_name() == spec_codec_name(encoding@),
{
    proof { lemma_label_constants(); }
    if str_eq(encoding, ENCODING_GB18030) {
        gb18030_codec()
    } else {
        match codec_for_label(encoding.as_bytes()) {
            Some(codec) => codec,
            None => utf8_codec(),
        }
    }
}

/// The name under which an encoding is shown.
pub open spec fn spec_display_name(encoding: Seq<char>) -> Seq<char> {
    if encoding == utf8_label() {
        seq!['U', 'T', 'F', '-', '8']
    } else if encoding == utf16le_label() {
        seq!['U', 'T', 'F', '-', '1', '6', ' ', 'L', 'E']
    } else if encoding == utf16be_label() {
        seq!['U', 'T', 'F', '-', '1', '6', ' ', 'B', 'E']
    } else if encoding == gbk_label() || encoding == seq!['G', 'B', 'K'] {
        seq!['G', 'B', 'K']
    } else if encoding == gb18030_label() {
        seq!['G', 'B', '1', '8', '0', '3', '0']
    } else {
        encoding
    }
}

/// The name under which an encoding is shown to the user.
pub fn encoding_display_name(encoding: &str) -> (r: String)
    ensures
        r@ == spec_display_name(encoding@),
{
    proof {
        lemma_label_constants();
        reveal_strlit("UTF-8");
        reveal_strlit("UTF-16 LE");
        reveal_strlit("UTF-16 BE");
        reveal_strlit("GBK");
        reveal_strlit("GB18030");
    }
    if str_eq(encoding, ENCODING_UTF8) {
        let r = "UTF-8".to_owned();
        assert(r@ =~= seq!['U', 'T', 'F', '-', '8']);
        r
    } else if str_eq(encoding, ENCODING_UTF16_LE) {
        let r = "UTF-16 LE".to_owned();
        assert(r@ =~= seq!['U', 'T', 'F', '-', '1', '6', ' ', 'L', 'E']);
        r
    } else if str_eq(encoding, ENCODING_UTF16_BE) {
        let r = "UTF-16 BE".to_owned();
        assert(r@ =~= seq!['U', 'T', 'F', '-', '1', '6', ' ', 'B', 'E']);
        r
    } else if str_eq(encoding, ENCODING_GBK) || str_eq(encoding, "GBK") {
        let r = "GBK".to_owned();
        assert(r@ =~= seq!['G', 'B', 'K']);
        r
    } else if str_eq(encoding, ENCODING_GB18030) {
        let r = "GB18030".to_owned();
        assert(r@ =~= seq!['G', 'B', '1', '8', '0', '3', '0']);
        r
    } else {
        encoding.to_owned()
    }
}


// ─── Detection ──────────────────────────────────────────────────────────────

/// How many of the first `pairs` byte pairs hold a zero at their odd (or even) byte.
pub open spec fn zero_count(d: Seq<u8>, pairs: int, odd: bool) -> int
    decreases pairs,
{
    if pairs <= 0 {
        0
    } else {
        zero_count(d, pairs - 1, odd) + if d[2 * (pairs - 1) + if odd { 1int } else { 0int }] == 0 {
            1int
        } else {
            0int
        }
    }
}

/// `x * 4`, or `usize::MAX` when that does not fit.
pub open spec fn saturating_times_four(x: int) -> int {
    if x * 4 > usize::MAX {
        usize::MAX as int
    } else {
        x * 4
    }
}

/// UTF-16 without a byte-order mark, recognised by its zero bytes: text of
/// even length whose first 64 KiB hold enough zeros in one byte position
/// and four times fewer in the other.
pub open spec fn spec_utf16_without_bom(d: Seq<u8>) -> Option<Seq<char>> {
    if d.len() < 4 || d.len() % 2 != 0 {
        None
    } else {
        let sample = if d.len() < 65536 { d.len() as int } else { 65536int };
        let pairs = sample / 2;
        let even = zero_count(d, pairs, false);
        let odd = zero_count(d, pairs, true);
        let minimum = if pairs / 10 > 2 { pairs / 10 } else { 2 };
        if odd >= minimum && odd >= saturating_times_four(even) {
            Some(utf16le_label())
        } else if even >= minimum && even >= saturating_times_four(odd) {
            Some(utf16be_label())
        } else {
            None
        }
    }
}

proof fn lemma_zero_count_bound(d: Seq<u8>, pairs: int, odd: bool)
    requires
        pairs >= 0,
    ensures
        0 <= zero_count(d, pairs, odd) <= pairs,
    decreases pairs,
{
    if pairs > 0 {
        lemma_zero_count_bound(d, pairs - 1, odd);
    }
}

/// Recognises UTF-16 text that has no byte-order mark (see [`spec_utf16_without_bom`]).
pub fn detect_utf16_without_bom(data: &[u8]) -> (r: Option<&'static str>)
    ensures
        r matches Some(label) ==> spec_utf16_without_bom(data@) == Some(label@),
        r is None ==> spec_utf16_without_bom(data@) is None,
{
    proof { lemma_label_constants(); }
    let len = data.len();
    if len < 4 || len % 2 != 0 {
        return None;
    }
    let capped = len.min(64 * 1024);
    let sample_len = capped & !1usize;
    assert(capped % 2 == 0 ==> capped & !1usize == capped) by (bit_vector);
    assert(capped == if len < 65536 { len } else { 65536 });
    let pairs = sample_len / 2;
    let mut even_zeroes: usize = 0;
    let mut odd_zeroes: usize = 0;
    let mut k: usize = 0;
    while k < pairs
        invariant
            len == data@.len(),
            pairs == sample_len / 2,
            sample_len <= len,
            k <= pairs,
            even_zeroes == zero_count(data@, k as int, false),
            odd_zeroes == zero_count(data@, k as int, true),
        decreases pairs - k,
    {
        proof {
            lemma_zero_count_bound(data@, k as int, false);
            lemma_zero_count_bound(data@, k as int, true);
        }
        assert(2 * k + 1 < len);
        if data[2 * k] == 0 {
            even_zeroes += 1;
        }
        if data[2 * k + 1] == 0 {
            odd_zeroes += 1;
        }
        k += 1;
    }
    let minimum_zeroes = (pairs / 10).max(2);
    let even_times_four = match even_zeroes.checked_mul(4) {
        Some(v) => v,
        None => usize::MAX,
    };
    let odd_times_four = match odd_zeroes.checked_mul(4) {
        Some(v) => v,
        None => usize::MAX,
    };
    if odd_zeroes >= minimum_zeroes && odd_zeroes >= even_times_four {
        Some(ENCODING_UTF16_LE)
    } else if even_zeroes >= minimum_zeroes && even_zeroes >= odd_times_four {
        Some(ENCODING_UTF16_BE)
    } else {
        None
    }
}

/// Whether the four bytes at `i` look like a four-byte GB18030 sequence:
/// lead byte, digit, lead byte, digit.
pub open spec fn gb18030_window(d: Seq<u8>, i: int) -> bool {
    0x81 <= d[i] <= 0xFE && 0x30 <= d[i + 1] <= 0x39 && 0x81 <= d[i + 2] <= 0xFE && 0x30 <= d[i + 3] <= 0x39
}

/// Whether the bytes hold a four-byte GB18030 sequence anywhere.
pub fn contains_gb18030_four_byte_sequence(data: &[u8]) -> (r: bool)
    ensures
        r == exists|i: int| 0 <= i && i + 4 <= data@.len() && gb18030_window(data@, i),
{
    let len = data.len();
    if len < 4 {
        return false;
    }
    let mut i: usize = 0;
    while i <= len - 4
        invariant
            len == data@.len(),
            len >= 4,
            i <= len - 3,
            forall|j: int| 0 <= j < i ==> !gb18030_window(data@, j),
        decreases len - i,
    {
        let b0 = data[i];
        let b1 = data[i + 1];
        let b2 = data[i + 2];
        let b3 = data[i + 3];
        if 0x81 <= b0 && b0 <= 0xFE && 0x30 <= b1 && b1 <= 0x39 && 0x81 <= b2 && b2 <= 0xFE && 0x30 <= b3
            && b3 <= 0x39 {
            assert(gb18030_window(data@, i as int));
            return true;
        }
        i += 1;
    }
    false
}

/// The code of a character with ASCII letters made lower-case.
pub open spec fn ascii_lower(c: char) -> u32 {
    if 'A' <= c <= 'Z' {
        ((c as u32) + 32) as u32
    } else {
        c as u32
    }
}

/// Whether two texts are equal when ASCII letters are compared without case
/// (`str::eq_ignore_ascii_case`).
pub open spec fn spec_eq_ignore_ascii_case(a: Seq<char>, b: Seq<char>) -> bool {
    a.len() == b.len() && forall|i: int| 0 <= i < a.len() ==> ascii_lower(a[i]) == ascii_lower(b[i])
}

fn lower_ascii_char(c: char) -> (r: u32)
    ensures
        r == ascii_lower(c),
{
    if 'A' <= c && c <= 'Z' {
        (c as u32) + 32
    } else {
        c as u32
    }
}

/// Whether two texts are equal when ASCII letters are compared without case.
pub fn eq_ignore_ascii_case(a: &str, b: &str) -> (r: bool)
    ensures
        r == spec_eq_ignore_ascii_case(a@, b@),
{
    let ac = str_to_chars(a);
    let bc = str_to_chars(b);
    if ac.len() != bc.len() {
        return false;
    }
    let mut i: usize = 0;
    while i < ac.len()
        invariant
            ac@ == a@,
            bc@ == b@,
            ac@.len() == bc@.len(),
            i <= ac@.len(),
            forall|j: int| 0 <= j < i ==> ascii_lower(a@[j]) == ascii_lower(b@[j]),
        decreases ac@.len() - i,
    {
        if lower_ascii_char(ac[i]) != lower_ascii_char(bc[i]) {
            return false;
        }
        i += 1;
    }
    true
}

/// The encoding a byte-order mark names, with the mark's length; UTF-8 with
/// no mark when there is none.
pub open spec fn spec_detect_bom(d: Seq<u8>) -> (Seq<char>, u64) {
    if d.len() >= 3 && d[0] == 0xEF && d[1] == 0xBB && d[2] == 0xBF {
        (utf8_label(), 3)
    } else if d.len() >= 2 && d[0] == 0xFF && d[1] == 0xFE {
        (utf16le_label(), 2)
    } else if d.len() >= 2 && d[0] == 0xFE && d[1] == 0xFF {
        (utf16be_label(), 2)
    } else {
        (utf8_label(), 0)
    }
}

/// Reads a file's byte-order mark (see [`spec_detect_bom`]).
pub fn detect_bom(data: &[u8]) -> (r: (String, u64))
    ensures
        (r.0@, r.1) == spec_detect_bom(data@),
{
    proof { lemma_label_constants(); }
    let len = data.len();
    if len >= 3 && data[0] == 0xEF && data[1] == 0xBB && data[2] == 0xBF {
        (ENCODING_UTF8.to_owned(), 3)
    } else if len >= 2 && data[0] == 0xFF && data[1] == 0xFE {
        (ENCODING_UTF16_LE.to_owned(), 2)
    } else if len >= 2 && data[0] == 0xFE && data[1] == 0xFF {
        (ENCODING_UTF16_BE.to_owned(), 2)
    } else {
        (ENCODING_UTF8.to_owned(), 0)
    }
}

/// A mark decides the encoding before anything else is looked at.
pub proof fn law_mark_decides_encoding(d: Seq<u8>)
    requires
        spec_detect_bom(d).1 > 0,
    ensures
        spec_detect_encoding(d) == spec_detect_bom(d),
{
}

/// The encoding of a file and the length of its byte-order mark: a mark
/// decides; otherwise UTF-16 recognised by its zeros, then valid UTF-8, then
/// GB18030 when a four-byte sequence occurs, and otherwise the guess of a
/// `chardetng` detector (never ISO-2022-JP nor UTF-8), with GBK spelled `gbk`.
pub open spec fn spec_detect_encoding(d: Seq<u8>) -> (Seq<char>, u64) {
    if d.len() >= 3 && d[0] == 0xEF && d[1] == 0xBB && d[2] == 0xBF {
        (utf8_label(), 3)
    } else if d.len() >= 2 && d[0] == 0xFF && d[1] == 0xFE {
        (utf16le_label(), 2)
    } else if d.len() >= 2 && d[0] == 0xFE && d[1] == 0xFF {
        (utf16be_label(), 2)
    } else if spec_utf16_without_bom(d) is Some {
        (spec_utf16_without_bom(d)->0, 0)
    } else if valid_utf8(d) {
        (utf8_label(), 0)
    } else if exists|i: int| 0 <= i && i + 4 <= d.len() && gb18030_window(d, i) {
        (gb18030_label(), 0)
    } else {
        let guess = guessed_encoding(d, true, false, None, false);
        (if spec_eq_ignore_ascii_case(guess, seq!['G', 'B', 'K']) { gbk_label() } else { guess }, 0)
    }
}

/// A file with no byte-order mark, not UTF-16 by its zeros and not valid
/// UTF-8, that holds a four-byte GB18030 sequence (lead byte, digit, lead
/// byte, digit) at any position, however far into the file, is GB18030.
pub proof fn law_gb18030_sequence_anywhere_decides(d: Seq<u8>, i: int)
    requires
        spec_detect_bom(d).1 == 0,
        spec_utf16_without_bom(d) is None,
        !valid_utf8(d),
        0 <= i && i + 4 <= d.len(),
        0x81 <= d[i] <= 0xFE,
        0x30 <= d[i + 1] <= 0x39,
        0x81 <= d[i + 2] <= 0xFE,
        0x30 <= d[i + 3] <= 0x39,
    ensures
        spec_detect_encoding(d) == (gb18030_label(), 0u64),
{
    assert(gb18030_window(d, i));
}

/// Bytes of even length, at least 4, whose first 64 KiB (the sample) hold
/// at least `max(pairs / 10, 2)` zero odd bytes, and at least four times as
/// many zero odd bytes as zero even bytes, are UTF-16LE when they carry no
/// byte-order mark; mirrored, UTF-16BE.
pub proof fn law_utf16_recognised_by_zeros(d: Seq<u8>)
    requires
        spec_detect_bom(d).1 == 0,
        d.len() >= 4,
        d.len() % 2 == 0,
    ensures
        ({
            let pairs = (if d.len() < 65536 { d.len() as int } else { 65536 }) / 2;
            let odd = zero_count(d, pairs, true);
            let even = zero_count(d, pairs, false);
            &&& (odd >= 2 && odd >= pairs / 10 && odd >= 4 * even) ==> spec_detect_encoding(d) == (utf16le_label(), 0u64)
            &&& (even >= 2 && even >= pairs / 10 && even >= 4 * odd) ==> spec_detect_encoding(d) == (utf16be_label(), 0u64)
        }),
{
    let pairs = (if d.len() < 65536 { d.len() as int } else { 65536 }) / 2;
    lemma_zero_count_bound(d, pairs, true);
    lemma_zero_count_bound(d, pairs, false);
}

/// Detects a file's encoding from its bytes (see [`spec_detect_encoding`]).
pub fn detect_encoding(data: &[u8]) -> (r: (String, u64))
    ensures
        (r.0@, r.1) == spec_detect_encoding(data@),
{
    proof { lemma_label_constants(); }
    let len = data.len();
    if len >= 3 && data[0] == 0xEF && data[1] == 0xBB && data[2] == 0xBF {
        (ENCODING_UTF8.to_owned(), 3)
    } else if len >= 2 && data[0] == 0xFF && data[1] == 0xFE {
        (ENCODING_UTF16_LE.to_owned(), 2)
    } else if len >= 2 && data[0] == 0xFE && data[1] == 0xFF {
        (ENCODING_UTF16_BE.to_owned(), 2)
    } else if let Some(encoding) = detect_utf16_without_bom(data) {
        (encoding.to_owned(), 0)
    } else if is_valid_utf8(data) {
        (ENCODING_UTF8.to_owned(), 0)
    } else if contains_gb18030_four_byte_sequence(data) {
        (ENCODING_GB18030.to_owned(), 0)
    } else {
        // ISO-2022-JP can hold CSV syntax bytes while in a shifted state,
        // which the byte-level random-access index cannot follow.
        let mut detector = new_detector(false);
        feed_detector(&mut detector, data, true);
        assert(detector.spec_fed() =~= data@);
        let guessed = guess_detector(&detector, None, false);
        let detected = guessed.name();
        proof { reveal_strlit("GBK"); }
        assert("GBK"@ =~= seq!['G', 'B', 'K']);
        let encoding = if eq_ignore_ascii_case(detected, "GBK") {
            ENCODING_GBK
        } else {
            detected
        };
        (encoding.to_owned(), 0)
    }
}

// ─── Decoding and encoding one record ───────────────────────────────────────

/// The text of a record's bytes in the given encoding: well-formed UTF-8 and
/// UTF-16 read as the text they encode, other bytes as the lossy decoders
/// give them.
pub open spec fn spec_decode_row(bytes: Seq<u8>, encoding: Seq<char>) -> Seq<char> {
    if encoding == utf16le_label() {
        if bytes.len() < 2 { Seq::empty() } else { utf16_text(units_of(bytes, false)) }
    } else if encoding == utf16be_label() {
        if bytes.len() < 2 { Seq::empty() } else { utf16_text(units_of(bytes, true)) }
    } else if encoding == utf8_label() {
        if valid_utf8(bytes) { decode_utf8(bytes) } else { utf8_lossy(bytes) }
    } else {
        legacy_decode(spec_codec_name(encoding), bytes)
    }
}

/// Decodes a record's bytes (see [`spec_decode_row`]).
pub fn decode_row(bytes: &[u8], encoding: &str) -> (r: String)
    requires
        bytes@.len() <= usize::MAX / 8,
    ensures
        r@ == spec_decode_row(bytes@, encoding@),
{
    proof { lemma_label_constants(); }
    if str_eq(encoding, ENCODING_UTF16_LE) {
        if bytes.len() < 2 {
            return String::new();
        }
        let units = code_units(bytes, false);
        let r = decode_utf16_lossy(units.as_slice());
        proof { lemma_utf16_text(units@, r@); }
        r
    } else if str_eq(encoding, ENCODING_UTF16_BE) {
        if bytes.len() < 2 {
            return String::new();
        }
        let units = code_units(bytes, true);
        let r = decode_utf16_lossy(units.as_slice());
        proof { lemma_utf16_text(units@, r@); }
        r
    } else if str_eq(encoding, ENCODING_UTF8) {
        decode_utf8_lossy(bytes)
    } else {
        codec_decode(&codec_for_encoding(encoding), bytes)
    }
}

/// The bytes of 16-bit units, low byte first or high byte first.
pub open spec fn unit_bytes(units: Seq<u16>, big_endian: bool) -> Seq<u8>
    decreases units.len(),
{
    if units.len() == 0 {
        Seq::empty()
    } else {
        let u = units.last();
        let lo = (u % 256) as u8;
        let hi = (u / 256) as u8;
        unit_bytes(units.drop_last(), big_endian) + if big_endian { seq![hi, lo] } else { seq![lo, hi] }
    }
}

fn units_to_bytes(units: &[u16], big_endian: bool) -> (r: Vec<u8>)
    ensures
        r@ == unit_bytes(units@, big_endian),
{
    let mut r: Vec<u8> = Vec::new();
    let mut i: usize = 0;
    while i < units.len()
        invariant
            i <= units@.len(),
            r@ == unit_bytes(units@.take(i as int), big_endian),
        decreases units@.len() - i,
    {
        let u = units[i];
        let lo = (u % 256) as u8;
        let hi = (u / 256) as u8;
        if big_endian {
            r.push(hi);
            r.push(lo);
        } else {
            r.push(lo);
            r.push(hi);
        }
        assert(units@.take(i as int + 1).drop_last() =~= units@.take(i as int));
        i += 1;
        assert(r@ =~= unit_bytes(units@.take(i as int), big_endian));
    }
    assert(units@.take(units@.len() as int) =~= units@);
    r
}

/// The message given when text cannot be written in a file's encoding.
pub open spec fn unrepresentable_message(encoding: Seq<char>) -> Seq<char> {
    "Text contains characters that cannot be represented in "@ + spec_display_name(encoding)
}

/// A text written in a file's encoding: UTF-16 in the file's byte order,
/// UTF-8 as it is, and a legacy encoding through its codec, which fails
/// when a character has no representation.
pub open spec fn spec_encode_text(text: Seq<char>, encoding: Seq<char>) -> Result<Seq<u8>, Seq<char>> {
    if encoding == utf16le_label() {
        Ok(unit_bytes(spec_encode_utf16(text), false))
    } else if encoding == utf16be_label() {
        Ok(unit_bytes(spec_encode_utf16(text), true))
    } else if encoding == utf8_label() {
        Ok(vstd::utf8::encode_utf8(text))
    } else {
        let (bytes, had_errors) = legacy_encode(spec_codec_name(encoding), text);
        if had_errors {
            Err(unrepresentable_message(encoding))
        } else {
            Ok(bytes)
        }
    }
}

/// Writes a text in a file's encoding (see [`spec_encode_text`]).
pub fn encode_text(text: &str, encoding: &str) -> (r: Result<Vec<u8>, String>)
    requires
        text.spec_bytes().len() <= usize::MAX / 8,
    ensures
        match r {
            Ok(bytes) => spec_encode_text(text@, encoding@) == Ok::<Seq<u8>, Seq<char>>(bytes@),
            Err(message) => spec_encode_text(text@, encoding@) == Err::<Seq<u8>, Seq<char>>(message@),
        },
{
    proof { lemma_label_constants(); }
    if str_eq(encoding, ENCODING_UTF16_LE) {
        let units = encode_utf16_units(text);
        Ok(units_to_bytes(units.as_slice(), false))
    } else if str_eq(encoding, ENCODING_UTF16_BE) {
        let units = encode_utf16_units(text);
        Ok(units_to_bytes(units.as_slice(), true))
    } else if str_eq(encoding, ENCODING_UTF8) {
        let bytes = text.as_bytes();
        let mut r: Vec<u8> = Vec::new();
        let mut i: usize = 0;
        while i < bytes.len()
            invariant
                i <= bytes@.len(),
                r@ == bytes@.take(i as int),
            decreases bytes@.len() - i,
        {
            r.push(bytes[i]);
            i += 1;
            assert(r@ =~= bytes@.take(i as int));
        }
        assert(bytes@.take(bytes@.len() as int) =~= bytes@);
        Ok(r)
    } else {
        let codec = codec_for_encoding(encoding);
        let (bytes, had_errors) = codec_encode(&codec, text);
        if had_errors {
            proof { reveal_strlit("Text contains characters that cannot be represented in "); }
            let mut message = "Text contains characters that cannot be represented in ".to_owned();
            let display = encoding_display_name(encoding);
            message.append(display.as_str());
            Err(message)
        } else {
            Ok(bytes)
        }
    }
}

/// How many bytes of line ending a record's bytes end with, in its encoding.
pub open spec fn spec_line_ending_len(row: Seq<u8>, encoding: Seq<char>) -> int {
    let n = row.len() as int;
    if encoding == utf16le_label() {
        if n >= 4 && row.subrange(n - 4, n) == seq![0x0Du8, 0x00u8, 0x0Au8, 0x00u8] {
            4
        } else if n >= 2 && (row.subrange(n - 2, n) == seq![0x0Au8, 0x00u8] || row.subrange(n - 2, n) == seq![0x0Du8, 0x00u8]) {
            2
        } else {
            0
        }
    } else if encoding == utf16be_label() {
        if n >= 4 && row.subrange(n - 4, n) == seq![0x00u8, 0x0Du8, 0x00u8, 0x0Au8] {
            4
        } else if n >= 2 && (row.subrange(n - 2, n) == seq![0x00u8, 0x0Au8] || row.subrange(n - 2, n) == seq![0x00u8, 0x0Du8]) {
            2
        } else {
            0
        }
    } else {
        if n >= 2 && row.subrange(n - 2, n) == seq![0x0Du8, 0x0Au8] {
            2
        } else if n >= 1 && (row[n - 1] == 0x0A || row[n - 1] == 0x0D) {
            1
        } else {
            0
        }
    }
}

/// Counts the line-ending bytes at the end of a record (see [`spec_line_ending_len`]).
pub fn line_ending_len(row_bytes: &[u8], encoding: &str) -> (r: usize)
    ensures
        r == spec_line_ending_len(row_bytes@, encoding@),
        r <= row_bytes@.len(),
{
    proof { lemma_label_constants(); }
    let n = row_bytes.len();
    let ghost row = row_bytes@;
    if str_eq(encoding, ENCODING_UTF16_LE) {
        if n >= 4 && row_bytes[n - 4] == 0x0D && row_bytes[n - 3] == 0x00 && row_bytes[n - 2] == 0x0A && row_bytes[n - 1] == 0x00 {
            assert(row.subrange(n - 4, n as int) =~= seq![0x0Du8, 0x00u8, 0x0Au8, 0x00u8]);
            4
        } else if n >= 2 && ((row_bytes[n - 2] == 0x0A && row_bytes[n - 1] == 0x00) || (row_bytes[n - 2] == 0x0D && row_bytes[n - 1] == 0x00)) {
            assert(n >= 4 ==> row.subrange(n - 4, n as int)[0] == row[n - 4]);
            assert(row.subrange(n - 2, n as int) =~= seq![row[n - 2], row[n - 1]]);
            2
        } else {
            assert(n >= 4 ==> row.subrange(n - 4, n as int) =~= seq![row[n - 4], row[n - 3], row[n - 2], row[n - 1]]);
            assert(n >= 2 ==> row.subrange(n - 2, n as int) =~= seq![row[n - 2], row[n - 1]]);
            0
        }
    } else if str_eq(encoding, ENCODING_UTF16_BE) {
        if n >= 4 && row_bytes[n - 4] == 0x00 && row_bytes[n - 3] == 0x0D && row_bytes[n - 2] == 0x00 && row_bytes[n - 1] == 0x0A {
            assert(row.subrange(n - 4, n as int) =~= seq![0x00u8, 0x0Du8, 0x00u8, 0x0Au8]);
            4
        } else if n >= 2 && ((row_bytes[n - 2] == 0x00 && row_bytes[n - 1] == 0x0A) || (row_bytes[n - 2] == 0x00 && row_bytes[n - 1] == 0x0D)) {
            assert(n >= 4 ==> row.subrange(n - 4, n as int) =~= seq![row[n - 4], row[n - 3], row[n - 2], row[n - 1]]);
            assert(row.subrange(n - 2, n as int) =~= seq![row[n - 2], row[n - 1]]);
            2
        } else {
            assert(n >= 4 ==> row.subrange(n - 4, n as int) =~= seq![row[n - 4], row[n - 3], row[n - 2], row[n - 1]]);
            assert(n >= 2 ==> row.subrange(n - 2, n as int) =~= seq![row[n - 2], row[n - 1]]);
            0
        }
    } else {
        if n >= 2 && row_bytes[n - 2] == 0x0D && row_bytes[n - 1] == 0x0A {
            assert(row.subrange(n - 2, n as int) =~= seq![0x0Du8, 0x0Au8]);
            2
        } else if n >= 1 && (row_bytes[n - 1] == 0x0A || row_bytes[n - 1] == 0x0D) {
            assert(n >= 2 ==> row.subrange(n - 2, n as int) =~= seq![row[n - 2], row[n - 1]]);
            1
        } else {
            assert(n >= 2 ==> row.subrange(n - 2, n as int) =~= seq![row[n - 2], row[n - 1]]);
            0
        }
    }
}

} // verus!
