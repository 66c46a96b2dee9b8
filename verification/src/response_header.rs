//! Gemini response headers: a status code and a meta line that holds no
//! newline and fits in 1024 bytes of UTF-8.

use mime::Mime as MediaType;
use vstd::prelude::*;
use vstd::utf8::{char_is_scalar, encode_scalar, encode_utf8};

use crate::text::contains_char;

verus! {

// ---------------------------------------------------------------------------
// Meta
// ---------------------------------------------------------------------------

/// The most bytes that a meta line may take.
pub open spec fn meta_max_len() -> nat {
    1024
}

/// `s` may stand as a meta line: it holds no `'\n'` and its UTF-8 encoding
/// takes at most 1024 bytes.
pub open spec fn meta_valid(s: Seq<char>) -> bool {
    !s.contains('\n') && encode_utf8(s).len() <= meta_max_len()
}

/// The longest prefix of `s` that may stand as a meta line.
pub open spec fn truncate_meta(s: Seq<char>) -> Seq<char>
    decreases s.len(),
{
    if meta_valid(s) || s.len() == 0 {
        s
    } else {
        truncate_meta(s.drop_last())
    }
}

/// Why `s` may not stand as a meta line.
pub open spec fn meta_error(s: Seq<char>) -> MetaError {
    if s.contains('\n') {
        MetaError::ContainsNewline
    } else {
        MetaError::TooLong
    }
}

/// Why a text was refused as a meta line.
#[derive(Debug, Clone, Copy, PartialEq, Eq, Structural)]
pub enum MetaError {
    /// It holds a `'\n'`.
    ContainsNewline,
    /// Its UTF-8 encoding takes more than `Meta::MAX_LEN` bytes.
    TooLong,
}

/// The meta line of a response header.
#[derive(Debug, Clone, PartialEq, Eq)]
pub struct Meta(String);

impl View for Meta {
    type V = Seq<char>;

    closed spec fn view(&self) -> Seq<char> {
        self.0@
    }
}

/// The UTF-8 encoding of a concatenation is the concatenation of the encodings.
pub proof fn lemma_encode_utf8_append(a: Seq<char>, b: Seq<char>)
    ensures
        encode_utf8(a + b) == encode_utf8(a) + encode_utf8(b),
    decreases a.len(),
{
    if a.len() == 0 {
        assert(a + b =~= b);
        assert(encode_utf8(a) =~= Seq::<u8>::empty());
        assert(encode_utf8(a) + encode_utf8(b) =~= encode_utf8(b));
    } else {
        assert((a + b).drop_first() =~= a.drop_first() + b);
        assert((a + b)[0] == a[0]);
        lemma_encode_utf8_append(a.drop_first(), b);
        assert(encode_utf8(a + b) =~= encode_scalar(a[0] as u32) + encode_utf8(a.drop_first() + b));
        assert(encode_utf8(a) + encode_utf8(b) =~= encode_scalar(a[0] as u32) + (encode_utf8(
            a.drop_first(),
        ) + encode_utf8(b)));
    }
}

/// A prefix of a valid meta line is a valid meta line.
pub proof fn lemma_meta_valid_prefix(s: Seq<char>, k: int)
    requires
        0 <= k <= s.len(),
        meta_valid(s),
    ensures
        meta_valid(s.subrange(0, k)),
{
    let a = s.subrange(0, k);
    let b = s.subrange(k, s.len() as int);
    assert(a + b =~= s);
    lemma_encode_utf8_append(a, b);
    if a.contains('\n') {
        let j = choose|j: int| 0 <= j < a.len() && a[j] == '\n';
        assert(s[j] == '\n');
    }
}

/// Where a prefix of length `k` is valid and no longer prefix is, the
/// truncation of `s` is that prefix.
proof fn lemma_truncate_meta_at(s: Seq<char>, k: int)
    requires
        0 <= k <= s.len(),
        meta_valid(s.subrange(0, k)),
        forall|j: int| k < j <= s.len() ==> !meta_valid(#[trigger] s.subrange(0, j)),
    ensures
        truncate_meta(s) == s.subrange(0, k),
    decreases s.len(),
{
    if s.len() == k {
        assert(s.subrange(0, k) =~= s);
    } else {
        assert(s.subrange(0, s.len() as int) =~= s);
        assert(!meta_valid(s));
        let t = s.drop_last();
        assert forall|j: int| k < j <= t.len() implies !meta_valid(#[trigger] t.subrange(0, j)) by {
            assert(t.subrange(0, j) =~= s.subrange(0, j));
        }
        assert(t.subrange(0, k) =~= s.subrange(0, k));
        lemma_truncate_meta_at(t, k);
    }
}

/// The number of bytes that `c` takes in UTF-8.
fn utf8_width(c: char) -> (res: usize)
    ensures
        res == encode_scalar(c as u32).len(),
        1 <= res <= 4,
{
    proof {
        char_is_scalar(c);
    }
    let v = c as u32;
    if v <= 0x7F {
        1
    } else if v <= 0x7FF {
        2
    } else if v <= 0xFFFF {
        3
    } else {
        4
    }
}

/// The length of the longest prefix of `s` that may stand as a meta line.
fn meta_cut(s: &str) -> (res: usize)
    ensures
        res <= s@.len(),
        meta_valid(s@.subrange(0, res as int)),
        forall|j: int| res < j <= s@.len() ==> !meta_valid(#[trigger] s@.subrange(0, j)),
{
    let n = s.unicode_len();
    let mut bytes: usize = 0;
    let mut i: usize = 0;
    assert(s@.subrange(0, 0) =~= Seq::<char>::empty());
    assert(encode_utf8(Seq::<char>::empty()) =~= Seq::<u8>::empty());
    while i < n
        invariant
            n == s@.len(),
            i <= n,
            bytes == encode_utf8(s@.subrange(0, i as int)).len(),
            meta_valid(s@.subrange(0, i as int)),
        decreases n - i,
    {
        let c = s.get_char(i);
        let w = utf8_width(c);
        let ghost head = s@.subrange(0, i as int);
        let ghost next = s@.subrange(0, i + 1);
        proof {
            assert(next =~= head + seq![c]);
            lemma_encode_utf8_append(head, seq![c]);
            assert(seq![c].drop_first() =~= Seq::<char>::empty());
            assert(seq![c][0] == c);
            assert(encode_utf8(Seq::<char>::empty()) =~= Seq::<u8>::empty());
            assert(encode_utf8(seq![c]) =~= encode_scalar(c as u32) + encode_utf8(
                Seq::<char>::empty(),
            ));
            assert(encode_utf8(seq![c]) =~= encode_scalar(c as u32));
        }
        if c == '\n' || bytes + w > 1024 {
            proof {
                assert forall|j: int| i < j <= n implies !meta_valid(#[trigger] s@.subrange(0, j)) by {
                    if meta_valid(s@.subrange(0, j)) {
                        lemma_meta_valid_prefix(s@.subrange(0, j), i + 1);
                        assert(s@.subrange(0, j).subrange(0, i + 1) =~= next);
                        if c == '\n' {
                            assert(next[i as int] == '\n');
                        }
                    }
                }
            }
            return i;
        }
        bytes = bytes + w;
        i = i + 1;
        proof {
            if next.contains('\n') {
                let j = choose|j: int| 0 <= j < next.len() && next[j] == '\n';
                if j < head.len() {
                    assert(head[j] == '\n');
                }
            }
        }
    }
    n
}

impl Meta {
    /// The most bytes that a meta line may take.
    pub const MAX_LEN: usize = 1024;

    /// `meta` as a meta line; refused where it holds a newline or takes
    /// more than `MAX_LEN` bytes.
    pub fn new(meta: &str) -> (res: Result<Meta, MetaError>)
        ensures
            res is Ok <==> meta_valid(meta@),
            res matches Ok(m) ==> m@ == meta@,
            res matches Err(e) ==> e == meta_error(meta@),
    {
        if contains_char(meta, '\n') {
            return Err(MetaError::ContainsNewline);
        }
        let cut = meta_cut(meta);
        if cut < meta.unicode_len() {
            proof {
                assert(meta@.subrange(0, meta@.len() as int) =~= meta@);
            }
            return Err(MetaError::TooLong);
        }
        proof {
            assert(meta@.subrange(0, cut as int) =~= meta@);
        }
        Ok(Meta(String::from_str(meta)))
    }

    /// `meta` cut before its first newline and before the first character
    /// that would take it past `MAX_LEN` bytes.
    pub fn new_lossy(meta: &str) -> (res: Meta)
        ensures
            res@ == truncate_meta(meta@),
            meta_valid(res@),
    {
        let cut = meta_cut(meta);
        proof {
            lemma_truncate_meta_at(meta@, cut as int);
        }
        Meta(String::from_str(meta.substring_char(0, cut)))
    }

    /// The text of the meta line.
    pub fn as_str(&self) -> (res: &str)
        ensures
            res@ == self@,
    {
        self.0.as_str()
    }
}

// ---------------------------------------------------------------------------
// Status
// ---------------------------------------------------------------------------

/// The two-digit status code of a response.
#[derive(Debug, Clone, Copy, PartialEq, Eq, Structural)]
pub struct Status(u8);

impl View for Status {
    type V = u8;

    closed spec fn view(&self) -> u8 {
        self.0
    }
}

impl Status {
    /// Status 10: input expected: the meta line is a prompt.
    pub fn input() -> (res: Status)
        ensures
            res@ == 10,
    {
        Status(10)
    }

    /// Status 20: success: the meta line is the media type of the body.
    pub fn success() -> (res: Status)
        ensures
            res@ == 20,
    {
        Status(20)
    }

    /// Status 50: permanent failure.
    pub fn permanent_failure() -> (res: Status)
        ensures
            res@ == 50,
    {
        Status(50)
    }

    /// Status 51: the resource was not found.
    pub fn not_found() -> (res: Status)
        ensures
            res@ == 51,
    {
        Status(51)
    }

    /// Status 60: a client certificate is required.
    pub fn client_certificate_required() -> (res: Status)
        ensures
            res@ == 60,
    {
        Status(60)
    }

    /// Status 61: the client certificate is not authorized.
    pub fn certificate_not_authorized() -> (res: Status)
        ensures
            res@ == 61,
    {
        Status(61)
    }

    /// The numeric code.
    pub fn code(&self) -> (res: u8)
        ensures
            res == self@,
    {
        self.0
    }
}

// ---------------------------------------------------------------------------
// Laws of the meta line
// ---------------------------------------------------------------------------

/// The UTF-8 encoding of `s` takes at most four bytes per character.
pub proof fn lemma_encode_utf8_len_bound(s: Seq<char>)
    ensures
        encode_utf8(s).len() <= 4 * s.len(),
    decreases s.len(),
{
    if s.len() > 0 {
        lemma_encode_utf8_len_bound(s.drop_first());
    }
}

/// Where the strict constructor accepts a text, the lossy one keeps it whole:
/// `Meta::new_lossy(s)` and `Meta::new(s)` then agree.
pub proof fn lemma_lossy_meta_keeps_valid(s: Seq<char>)
    requires
        meta_valid(s),
    ensures
        truncate_meta(s) == s,
{
}

/// Truncation yields a valid meta line that is a prefix of the input, and
/// truncating it again changes nothing.
pub proof fn lemma_truncate_meta_settles(s: Seq<char>)
    ensures
        meta_valid(truncate_meta(s)),
        truncate_meta(s).len() <= s.len(),
        truncate_meta(s) == s.subrange(0, truncate_meta(s).len() as int),
        truncate_meta(truncate_meta(s)) == truncate_meta(s),
    decreases s.len(),
{
    if s.len() == 0 {
        assert(encode_utf8(s) =~= Seq::<u8>::empty());
        assert(s.subrange(0, 0) =~= s);
    } else if meta_valid(s) {
        assert(s.subrange(0, s.len() as int) =~= s);
    } else {
        lemma_truncate_meta_settles(s.drop_last());
        let t = truncate_meta(s.drop_last());
        assert(s.drop_last().subrange(0, t.len() as int) =~= s.subrange(0, t.len() as int));
    }
}

// ---------------------------------------------------------------------------
// Media types
// ---------------------------------------------------------------------------

/// What the `mime` crate renders `text` as, once parsed as a media type;
/// `None` where it does not parse.
pub uninterp spec fn media_type_text(text: Seq<char>) -> Option<Seq<char>>;

/// Parses `text` with `<mime::Mime as FromStr>::from_str` and renders the
/// media type with its `Display` impl. The contract claims only that the
/// outcome is a function of `text`, named `media_type_text`: what the parser
/// accepts and how it renders is left to that crate.
#[verifier::external_body]
fn parse_media_type(text: &str) -> (res: Option<String>)
    ensures
        res.deep_view() == media_type_text(text@),
{
    match text.parse::<MediaType>() {
        Ok(media_type) => Some(media_type.to_string()),
        Err(_) => None,
    }
}

/// A media type, held as the text that the `mime` crate renders it as.
#[derive(Debug, Clone)]
pub struct Mime(String);

impl View for Mime {
    type V = Seq<char>;

    closed spec fn view(&self) -> Seq<char> {
        self.0@
    }
}

impl Mime {
    /// `text` parsed as a media type; `None` where it does not parse.
    pub fn parse(text: &str) -> (res: Option<Mime>)
        ensures
            match res {
                Some(m) => media_type_text(text@) == Some(m@),
                None => media_type_text(text@) is None,
            },
    {
        match parse_media_type(text) {
            Some(rendered) => Some(Mime(rendered)),
            None => None,
        }
    }

    /// The text of the media type.
    pub fn as_str(&self) -> (res: &str)
        ensures
            res@ == self@,
    {
        self.0.as_str()
    }
}

// ---------------------------------------------------------------------------
// Response header
// ---------------------------------------------------------------------------

/// Why a response header could not be built.
#[derive(Debug, Clone, Copy, PartialEq, Eq, Structural)]
pub enum HeaderError {
    /// The prompt of an input response is no valid meta line.
    InvalidInputPrompt(MetaError),
    /// The reason of a server error is no valid meta line.
    InvalidServerErrorReason(MetaError),
}

/// The header of a Gemini response.
#[derive(Debug, Clone)]
pub struct ResponseHeader {
    pub status: Status,
    pub meta: Meta,
}

/// A fixed meta text that is valid as it stands comes through `new_lossy` whole.
proof fn lemma_fixed_meta(s: Seq<char>)
    requires
        !s.contains('\n'),
        s.len() <= 256,
    ensures
        truncate_meta(s) == s,
{
    lemma_encode_utf8_len_bound(s);
}

impl ResponseHeader {
    /// An input response (status 10) that asks with `prompt`; refused where
    /// `prompt` is no valid meta line.
    pub fn input(prompt: &str) -> (res: Result<Self, HeaderError>)
        ensures
            res is Ok <==> meta_valid(prompt@),
            res matches Ok(h) ==> h.status@ == 10 && h.meta@ == prompt@,
            res matches Err(e) ==> e == HeaderError::InvalidInputPrompt(meta_error(prompt@)),
    {
        match Meta::new(prompt) {
            Ok(meta) => Ok(Self { status: Status::input(), meta }),
            Err(e) => Err(HeaderError::InvalidInputPrompt(e)),
        }
    }

    /// An input response (status 10) that asks with `prompt`, cut to a valid
    /// meta line.
    pub fn input_lossy(prompt: &str) -> (res: Self)
        ensures
            res.status@ == 10,
            res.meta@ == truncate_meta(prompt@),
    {
        Self { status: Status::input(), meta: Meta::new_lossy(prompt) }
    }

    /// A success response (status 20) whose body has the media type `mime`.
    pub fn success(mime: &Mime) -> (res: Self)
        ensures
            res.status@ == 20,
            res.meta@ == truncate_meta(mime@),
    {
        Self { status: Status::success(), meta: Meta::new_lossy(mime.as_str()) }
    }

    /// A permanent failure (status 50) that gives `reason`; refused where
    /// `reason` is no valid meta line.
    pub fn server_error(reason: &str) -> (res: Result<Self, HeaderError>)
        ensures
            res is Ok <==> meta_valid(reason@),
            res matches Ok(h) ==> h.status@ == 50 && h.meta@ == reason@,
            res matches Err(e) ==> e == HeaderError::InvalidServerErrorReason(meta_error(reason@)),
    {
        match Meta::new(reason) {
            Ok(meta) => Ok(Self { status: Status::permanent_failure(), meta }),
            Err(e) => Err(HeaderError::InvalidServerErrorReason(e)),
        }
    }

    /// A permanent failure (status 50) that gives `reason`, cut to a valid
    /// meta line.
    pub fn server_error_lossy(reason: &str) -> (res: Self)
        ensures
            res.status@ == 50,
            res.meta@ == truncate_meta(reason@),
    {
        Self { status: Status::permanent_failure(), meta: Meta::new_lossy(reason) }
    }

    /// A not-found response (status 51).
    pub fn not_found() -> (res: Self)
        ensures
            res.status@ == 51,
            res.meta@ == "Not found"@,
    {
        proof {
            reveal_strlit("Not found");
            lemma_fixed_meta("Not found"@);
        }
        Self { status: Status::not_found(), meta: Meta::new_lossy("Not found") }
    }

    /// A response (status 60) that asks for a client certificate.
    pub fn client_certificate_required() -> (res: Self)
        ensures
            res.status@ == 60,
            res.meta@ == "No certificate provided"@,
    {
        proof {
            reveal_strlit("No certificate provided");
            lemma_fixed_meta("No certificate provided"@);
        }
        Self {
            status: Status::client_certificate_required(),
            meta: Meta::new_lossy("No certificate provided"),
        }
    }

    /// A response (status 61) that refuses the client certificate.
    pub fn certificate_not_authorized() -> (res: Self)
        ensures
            res.status@ == 61,
            res.meta@ == "Your certificate is not authorized to view this content"@,
    {
        proof {
            reveal_strlit("Your certificate is not authorized to view this content");
            lemma_fixed_meta("Your certificate is not authorized to view this content"@);
        }
        Self {
            status: Status::certificate_not_authorized(),
            meta: Meta::new_lossy("Your certificate is not authorized to view this content"),
        }
    }

    /// The status of the response.
    pub fn status(&self) -> (res: &Status)
        ensures
            *res == self.status,
    {
        &self.status
    }

    /// The meta line of the response.
    pub fn meta(&self) -> (res: &Meta)
        ensures
            *res == self.meta,
    {
        &self.meta
    }
}

} // verus!
