//! How a document becomes a file: its directory, its name and its content.

use crate::api::{Document, DocumentView};
use crate::json;
use crate::json::{Json, JsonView};
use crate::text;
use crate::text::{
    chars_of, copy_text, decimal_text, find_in, find_text_in, rfind_in, same_text, slice_of,
    string_of, stripped, text_of, trim_text, CharClass,
};
use vstd::prelude::*;
use vstd::string::*;
use vstd::utf8::*;

verus! {

/// The directories that every context has, even when they are empty: applications anchor to
/// these paths, so they do not vanish on a context switch.
pub const SCHEMA_DIRS: [&'static str; 7] = [
    "Tabs",
    "Notes",
    "Todos",
    "Files",
    "Emails",
    "Links",
    "Other",
];

/// A file's content.
pub enum Content {
    /// Bytes made from the document itself
    Inline(Vec<u8>),
    /// A blob of a known size that the workspace serves and that is fetched on first read
    Remote { size: u64 },
}

/// A document as a file.
pub struct Rendered {
    pub dir: &'static str,
    pub base_name: String,
    pub content: Content,
}

/// What a file's content is.
pub ghost enum RenderedContent {
    Inline(Seq<u8>),
    Remote(u64),
}

impl View for Content {
    type V = RenderedContent;

    open spec fn view(&self) -> RenderedContent {
        match *self {
            Content::Inline(b) => RenderedContent::Inline(b@),
            Content::Remote { size } => RenderedContent::Remote(size),
        }
    }
}

/// Whether `char::is_alphanumeric` holds of a character outside ASCII.
pub uninterp spec fn unicode_alphanumeric(c: char) -> bool;

/// A letter or a digit, in any script. White space is neither.
pub open spec fn alphanumeric(c: char) -> bool {
    if (c as u32) < 128 {
        ascii_alphanumeric(c)
    } else {
        !text::is_white_space(c) && unicode_alphanumeric(c)
    }
}

/// An ASCII letter or digit.
pub open spec fn ascii_alphanumeric(c: char) -> bool {
    'a' <= c <= 'z' || 'A' <= c <= 'Z' || '0' <= c <= '9'
}

/// `char::is_alphanumeric`: letters and digits, none of which is white space. Which characters
/// outside ASCII those are is Unicode's to say and is not spelled out.
#[verifier::external_body]
pub(crate) fn is_alphanumeric(c: char) -> (r: bool)
    ensures
        r == (if (c as u32) < 128 {
            ascii_alphanumeric(c)
        } else {
            !text::is_white_space(c) && unicode_alphanumeric(c)
        }),
{
    c.is_alphanumeric()
}

/// What `String::from_utf8_lossy` makes of bytes that are not UTF-8.
pub uninterp spec fn lossy_text(b: Seq<u8>) -> Seq<char>;

/// The text of a byte string; what is no UTF-8 in it is replaced.
pub open spec fn utf8_text(b: Seq<u8>) -> Seq<char> {
    if valid_utf8(b) {
        decode_utf8(b)
    } else {
        lossy_text(b)
    }
}

/// `String::from_utf8_lossy`: valid UTF-8 as it reads. What it makes of other bytes is not
/// spelled out.
#[verifier::external_body]
pub(crate) fn from_utf8_lossy(b: &[u8]) -> (r: String)
    ensures
        r@ == (if valid_utf8(b@) {
            decode_utf8(b@)
        } else {
            lossy_text(b@)
        }),
{
    String::from_utf8_lossy(b).into_owned()
}

/// The UTF-8 bytes of a text.
pub(crate) fn bytes_of(s: &str) -> (r: Vec<u8>)
    ensures
        r@ == encode_utf8(s@),
{
    s.as_bytes_vec()
}

// ── names ────────────────────────────────────────────────────────────────────

/// The value of a hexadecimal digit.
pub open spec fn hex_digit(b: u8) -> Option<u8> {
    if 48 <= b <= 57 {
        Some((b - 48) as u8)
    } else if 97 <= b <= 102 {
        Some((b - 87) as u8)
    } else if 65 <= b <= 70 {
        Some((b - 55) as u8)
    } else {
        None
    }
}

/// Reads a hexadecimal digit.
pub fn hex_val(b: u8) -> (r: Option<u8>)
    ensures
        r == hex_digit(b),
{
    if 48 <= b && b <= 57 {
        Some(b - 48)
    } else if 97 <= b && b <= 102 {
        Some(b - 87)
    } else if 65 <= b && b <= 70 {
        Some(b - 55)
    } else {
        None
    }
}

/// A byte string with each `%` and two hexadecimal digits replaced by the byte they name.
pub open spec fn percent_decoded(b: Seq<u8>) -> Seq<u8>
    decreases b.len(),
{
    if b.len() == 0 {
        Seq::empty()
    } else if b[0] == 37 && b.len() > 2 && hex_digit(b[1]) is Some && hex_digit(b[2]) is Some {
        seq![(hex_digit(b[1])->0 * 16 + hex_digit(b[2])->0) as u8] + percent_decoded(b.skip(3))
    } else {
        seq![b[0]] + percent_decoded(b.skip(1))
    }
}

/// Decodes percent escapes.
pub fn percent_decode(s: &str) -> (r: String)
    ensures
        r@ == utf8_text(percent_decoded(encode_utf8(s@))),
{
    let bytes = bytes_of(s);
    let mut out: Vec<u8> = Vec::new();
    let mut i: usize = 0;
    assert(bytes@.skip(0) =~= bytes@);
    while i < bytes.len()
        invariant
            i <= bytes@.len(),
            out@ + percent_decoded(bytes@.skip(i as int)) == percent_decoded(bytes@),
        decreases bytes@.len() - i,
    {
        let ghost rest = bytes@.skip(i as int);
        let ghost o = out@;
        if bytes[i] == 37 && bytes.len() - i > 2 {
            if let (Some(h), Some(l)) = (hex_val(bytes[i + 1]), hex_val(bytes[i + 2])) {
                let v: u8 = h * 16 + l;
                out.push(v);
                proof {
                    assert(rest.skip(3) =~= bytes@.skip(i + 3));
                    assert(out@ + percent_decoded(rest.skip(3)) =~= o + (seq![v]
                        + percent_decoded(rest.skip(3))));
                }
                i = i + 3;
                continue ;
            }
        }
        out.push(bytes[i]);
        proof {
            assert(rest.skip(1) =~= bytes@.skip(i + 1));
            assert(out@ + percent_decoded(rest.skip(1)) =~= o + (seq![rest[0]] + percent_decoded(
                rest.skip(1),
            )));
        }
        i = i + 1;
    }
    assert(percent_decoded(bytes@.skip(bytes@.len() as int)) =~= Seq::empty());
    assert(out@ =~= percent_decoded(bytes@));
    from_utf8_lossy(out.as_slice())
}

/// The part of a URL after its scheme, where it has one.
pub open spec fn after_scheme(url: Seq<char>) -> Option<Seq<char>> {
    match text::find_text(url, "://"@) {
        Some(i) => Some(url.skip(i + "://"@.len())),
        None => None,
    }
}

/// The part of a text before the first character of a class.
pub open spec fn before(s: Seq<char>, k: CharClass) -> Seq<char> {
    s.take(text::find(s, k))
}

/// The part of a text after the last character of a class.
pub open spec fn after_last(s: Seq<char>, k: CharClass) -> Seq<char> {
    s.skip(text::rfind(s, k) + 1)
}

/// The file name that a location ends with, still percent-encoded.
pub open spec fn location_segment(url: Seq<char>) -> Option<Seq<char>> {
    match after_scheme(url) {
        Some(rest) => Some(
            after_last(before(rest, CharClass::Either('?', '#')), CharClass::Is('/')),
        ),
        None => None,
    }
}

/// The file name that a location ends with, decoded; none where the path ends with a slash or
/// the location is no URL.
pub open spec fn location_name(url: Seq<char>) -> Option<Seq<char>> {
    match location_segment(url) {
        Some(s) => if s.len() == 0 {
            None
        } else {
            Some(utf8_text(percent_decoded(encode_utf8(s))))
        },
        None => None,
    }
}

/// Splits the scheme off a URL.
fn without_scheme(url: &str) -> (r: Option<Vec<char>>)
    ensures
        after_scheme(url@) == (match r {
            Some(v) => Some(v@),
            None => None,
        }),
{
    let u = chars_of(url);
    let p = chars_of("://");
    match find_text_in(&u, &p) {
        Some(i) => {
            proof {
                assert(u@.skip(i + p@.len()) =~= u@.subrange(i + p@.len(), u@.len() as int));
            }
            let n = u.len();
            Some(slice_of(&u, i + p.len(), n))
        },
        None => None,
    }
}

/// Cuts a text before the first character of a class.
fn cut_before(s: &Vec<char>, k: CharClass) -> (r: Vec<char>)
    ensures
        r@ == before(s@, k),
{
    let i = find_in(s, k);
    assert(s@.take(i as int) =~= s@.subrange(0, i as int));
    slice_of(s, 0, i)
}

/// Cuts a text after the last character of a class.
pub(crate) fn cut_after_last(s: &Vec<char>, k: CharClass) -> (r: Vec<char>)
    ensures
        r@ == after_last(s@, k),
{
    let n = s.len();
    let at = match rfind_in(s, k) {
        Some(i) => i + 1,
        None => 0,
    };
    assert(s@.skip(at as int) =~= s@.subrange(at as int, s@.len() as int));
    slice_of(s, at, n)
}

/// The decoded file name of a location.
pub fn location_basename(url: &str) -> (r: Option<String>)
    ensures
        location_name(url@) == (match r {
            Some(s) => Some(s@),
            None => None,
        }),
{
    match without_scheme(url) {
        Some(rest) => {
            let path = cut_before(&rest, CharClass::Either('?', '#'));
            let base = cut_after_last(&path, CharClass::Is('/'));
            if base.len() == 0 {
                None
            } else {
                Some(percent_decode(text_of(&base).as_str()))
            }
        },
        None => None,
    }
}

/// The host of a URL, where it has one.
pub open spec fn url_host(url: Seq<char>) -> Option<Seq<char>> {
    match after_scheme(url) {
        Some(rest) => {
            let host = before(rest, CharClass::OneOf('/', '?', '#'));
            if host.len() == 0 {
                None
            } else {
                Some(host)
            }
        },
        None => None,
    }
}

/// The host of a URL.
pub fn host_of(url: &str) -> (r: Option<String>)
    ensures
        url_host(url@) == (match r {
            Some(s) => Some(s@),
            None => None,
        }),
{
    match without_scheme(url) {
        Some(rest) => {
            let host = cut_before(&rest, CharClass::OneOf('/', '?', '#'));
            if host.len() == 0 {
                None
            } else {
                Some(text_of(&host))
            }
        },
        None => None,
    }
}

/// A text without the characters that no file name may have.
pub open spec fn without_separators(s: Seq<char>) -> Seq<char>
    decreases s.len(),
{
    if s.len() == 0 {
        Seq::empty()
    } else if s.last() == '/' || s.last() == '\\' || s.last() == '\0' {
        without_separators(s.drop_last())
    } else {
        without_separators(s.drop_last()).push(s.last())
    }
}

/// A real file name: spaces and all scripts stay, path separators and dots at the ends go.
pub open spec fn safe_filename(name: Seq<char>) -> Seq<char> {
    let t = text::strip(text::trimmed(without_separators(name)), CharClass::Is('.'));
    if t.len() == 0 {
        "unnamed"@
    } else {
        t
    }
}

/// Keeps a real file name usable.
pub fn sanitize_filename(name: &str) -> (r: String)
    ensures
        r@ == safe_filename(name@),
{
    let s = chars_of(name);
    let mut cleaned: Vec<char> = Vec::new();
    let mut i: usize = 0;
    assert(s@.take(0) =~= Seq::empty());
    while i < s.len()
        invariant
            i <= s@.len(),
            cleaned@ == without_separators(s@.take(i as int)),
        decreases s@.len() - i,
    {
        let c = s[i];
        assert(s@.take(i + 1).drop_last() =~= s@.take(i as int));
        if c != '/' && c != '\\' && c != '\0' {
            cleaned.push(c);
        }
        i = i + 1;
    }
    assert(s@.take(s@.len() as int) =~= s@);
    let t = stripped(&stripped(&cleaned, CharClass::White), CharClass::Is('.'));
    if t.len() == 0 {
        copy_text("unnamed")
    } else {
        text_of(&t)
    }
}

/// The last part of a schema's path.
pub open spec fn schema_tail(schema: Seq<char>) -> Seq<char> {
    after_last(schema, CharClass::Is('/'))
}

/// The last part of a schema's path.
pub fn short_schema(schema: &str) -> (r: String)
    ensures
        r@ == schema_tail(schema@),
{
    text_of(&cut_after_last(&chars_of(schema), CharClass::Is('/')))
}

/// Whether a slug keeps a character as it is.
pub open spec fn slug_keeps(c: char) -> bool {
    ||| c == '.' || c == '_' || c == '(' || c == ')' || c == '[' || c == ']'
    ||| alphanumeric(c)
}

/// Whether a slug writes a dash for a character.
pub open spec fn slug_dashes(c: char) -> bool {
    c == ' ' || c == '\t' || c == '-' || c == '/' || c == '\\' || c == ':' || c == '|'
}

/// How one character extends a slug. A dash is written neither first nor after a dash.
pub open spec fn slug_step(out: Seq<char>, c: char) -> Seq<char> {
    if slug_dashes(c) {
        if out.len() > 0 && out.last() != '-' {
            out.push('-')
        } else {
            out
        }
    } else if slug_keeps(c) {
        out.push(c)
    } else {
        out
    }
}

/// The most characters that a slug has.
pub const SLUG_LIMIT: usize = 80;

/// How the rest of a title extends a slug, up to the limit.
pub open spec fn slug_from(out: Seq<char>, rest: Seq<char>) -> Seq<char>
    decreases rest.len(),
{
    if rest.len() == 0 || out.len() >= SLUG_LIMIT {
        out
    } else {
        slug_from(slug_step(out, rest[0]), rest.drop_first())
    }
}

/// The file name that a title gives.
pub open spec fn slug_of(title: Seq<char>) -> Seq<char> {
    let t = text::strip(slug_from(Seq::empty(), text::trimmed(title)), CharClass::Either('-', '.'));
    if t.len() == 0 {
        "untitled"@
    } else {
        t
    }
}

/// A readable name that any file system takes. The same title gives the same name on every
/// run and device; what to do about two equal names is for the view to say.
pub fn slug(input: &str) -> (r: String)
    ensures
        r@ == slug_of(input@),
{
    let s = stripped(&chars_of(input), CharClass::White);
    let mut out: Vec<char> = Vec::new();
    let mut i: usize = 0;
    assert(s@.skip(0) =~= s@);
    while i < s.len() && out.len() < SLUG_LIMIT
        invariant
            i <= s@.len(),
            slug_from(out@, s@.skip(i as int)) == slug_from(Seq::empty(), s@),
        decreases s@.len() - i,
    {
        let c = s[i];
        let ghost rest = s@.skip(i as int);
        assert(rest.drop_first() =~= s@.skip(i + 1));
        if c == ' ' || c == '\t' || c == '-' || c == '/' || c == '\\' || c == ':' || c == '|' {
            if out.len() > 0 && out[out.len() - 1] != '-' {
                out.push('-');
            }
        } else if c == '.' || c == '_' || c == '(' || c == ')' || c == '[' || c == ']'
            || is_alphanumeric(c) {
            out.push(c);
        }
        i = i + 1;
    }
    let t = stripped(&out, CharClass::Either('-', '.'));
    if t.len() == 0 {
        copy_text("untitled")
    } else {
        text_of(&t)
    }
}

/// A name with the document's number put before its extension.
pub open spec fn suffixed(base: Seq<char>, id: u64) -> Seq<char> {
    let dot = text::rfind(base, CharClass::Is('.'));
    if dot >= 0 {
        base.take(dot) + "."@ + text::decimal(id as nat) + "."@ + base.skip(dot + 1)
    } else {
        base + "."@ + text::decimal(id as nat)
    }
}

/// A name with the document's number is longer than the name.
pub proof fn lemma_suffixed_is_longer(base: Seq<char>, id: u64)
    ensures
        suffixed(base, id).len() > base.len(),
{
    reveal_strlit(".");
    text::lemma_rfind_props(base, CharClass::Is('.'));
}

/// Puts a document's number before a name's extension: `notes.md` and 123 give
/// `notes.123.md`.
pub fn with_id_suffix(base: &str, id: u64) -> (r: String)
    ensures
        r@ == suffixed(base@, id),
{
    let b = chars_of(base);
    match rfind_in(&b, CharClass::Is('.')) {
        Some(dot) => {
            let mut out = string_of(&b, 0, dot);
            assert(out@ =~= b@.take(dot as int));
            out.append(".");
            out.append(decimal_text(id).as_str());
            out.append(".");
            let n = b.len();
            let ext = string_of(&b, dot + 1, n);
            assert(ext@ =~= b@.skip(dot + 1));
            out.append(ext.as_str());
            out
        },
        None => {
            let mut out = copy_text(base);
            out.append(".");
            out.append(decimal_text(id).as_str());
            out
        },
    }
}

// ── documents ────────────────────────────────────────────────────────────────

/// A text that holds more than white space.
pub open spec fn not_blank(s: Seq<char>) -> bool {
    text::trimmed(s).len() > 0
}

/// The first of some keys whose member is a text.
pub open spec fn first_text(data: JsonView, keys: Seq<Seq<char>>) -> Option<Seq<char>>
    decreases keys.len(),
{
    if keys.len() == 0 {
        None
    } else {
        match data.member_text(keys[0]) {
            Some(s) => Some(s),
            None => first_text(data, keys.drop_first()),
        }
    }
}

/// The text of the first of some keys that has one, unless it is blank.
pub open spec fn field(data: JsonView, keys: Seq<Seq<char>>) -> Option<Seq<char>> {
    match first_text(data, keys) {
        Some(s) => if not_blank(s) {
            Some(s)
        } else {
            None
        },
        None => None,
    }
}

/// A text, or another in its place.
pub open spec fn or_text(s: Option<Seq<char>>, other: Seq<char>) -> Seq<char> {
    match s {
        Some(s) => s,
        None => other,
    }
}

/// The characters of each of a list of texts.
pub open spec fn key_texts(keys: Seq<&str>) -> Seq<Seq<char>> {
    Seq::new(keys.len(), |i: int| keys[i]@)
}

/// Reads a text field.
pub fn str_field<'a>(data: &'a Json, keys: &[&str]) -> (r: Option<&'a String>)
    ensures
        field(data@, key_texts(keys@)) == (match r {
            Some(s) => Some(s@),
            None => None,
        }),
{
    let ghost all = key_texts(keys@);
    let mut i: usize = 0;
    assert(all.skip(0) =~= all);
    while i < keys.len()
        invariant
            i <= keys@.len(),
            all == key_texts(keys@),
            first_text(data@, all) == first_text(data@, all.skip(i as int)),
        decreases keys@.len() - i,
    {
        assert(all.skip(i as int).drop_first() =~= all.skip(i + 1));
        match data.get_str(keys[i]) {
            Some(s) => {
                if trim_text(s.as_str()).as_str().is_empty() {
                    return None;
                }
                return Some(s);
            },
            None => {},
        }
        i = i + 1;
    }
    None
}

/// Reads a text field that has one key.
fn one_field<'a>(data: &'a Json, key: &str) -> (r: Option<&'a String>)
    ensures
        field(data@, seq![key@]) == (match r {
            Some(s) => Some(s@),
            None => None,
        }),
{
    let keys = [key];
    assert(key_texts(keys@) =~= seq![key@]);
    str_field(data, &keys)
}

/// A word, a dash and a document's number.
pub open spec fn numbered(word: Seq<char>, id: u64) -> Seq<char> {
    word + "-"@ + text::decimal(id as nat)
}

fn numbered_text(word: &str, id: u64) -> (r: String)
    ensures
        r@ == numbered(word@, id),
{
    let mut out = copy_text(word);
    out.append("-");
    out.append(decimal_text(id).as_str());
    out
}

/// The directory of a schema's documents.
pub open spec fn schema_dir(schema: Seq<char>) -> Seq<char> {
    if schema == "data/abstraction/tab"@ {
        "Tabs"@
    } else if schema == "data/abstraction/link"@ {
        "Links"@
    } else if schema == "data/abstraction/note"@ {
        "Notes"@
    } else if schema == "data/abstraction/todo"@ {
        "Todos"@
    } else if schema == "data/abstraction/file"@ {
        "Files"@
    } else if schema == "data/abstraction/email"@ {
        "Emails"@
    } else {
        "Other"@
    }
}

/// The URL that a tab or link stands for.
pub open spec fn link_url(data: JsonView) -> Seq<char> {
    or_text(field(data, seq!["url"@]), "about:blank"@)
}

/// A link's title: its own, or the host it leads to, or its number.
pub open spec fn link_title(doc: DocumentView) -> Seq<char> {
    or_text(
        field(doc.data, seq!["title"@]),
        or_text(url_host(link_url(doc.data)), numbered("tab"@, doc.id)),
    )
}

/// The shortcut file of a URL.
pub open spec fn shortcut(url: Seq<char>) -> Seq<char> {
    "[InternetShortcut]\r\nURL="@ + url + "\r\n"@
}

/// The text of a note, ended by a line feed unless it is empty.
pub open spec fn note_text(data: JsonView) -> Seq<char> {
    let content = or_text(field(data, seq!["content"@]), Seq::empty());
    if content.len() > 0 && content.last() != '\n' {
        content.push('\n')
    } else {
        content
    }
}

/// Whether a todo is done.
pub open spec fn todo_done(data: JsonView) -> bool {
    let mark = match data.member("completed"@) {
        Some(v) => Some(v),
        None => data.member("done"@),
    };
    match mark {
        Some(v) => v.truth() == Some(true),
        None => false,
    }
}

/// The title that a document of a kind has, or its number.
pub open spec fn own_title(doc: DocumentView, word: Seq<char>) -> Seq<char> {
    or_text(field(doc.data, seq!["title"@]), numbered(word, doc.id))
}

/// A todo's line and, where it has one, its description below an empty line.
pub open spec fn todo_text(title: Seq<char>, done: bool, description: Option<Seq<char>>) -> Seq<
    char,
> {
    let head = "- ["@ + (if done {
        "x"@
    } else {
        " "@
    }) + "] "@ + title + "\n"@;
    match description {
        Some(d) => head + "\n"@ + d + "\n"@,
        None => head,
    }
}

/// The keys that name a document of no kind of its own.
pub open spec fn json_title_keys() -> Seq<Seq<char>> {
    seq!["title"@, "name"@, "subject"@, "filename"@]
}

/// The name of the first location that has one, or the file's number.
pub open spec fn file_name(locations: Seq<Seq<char>>, id: u64) -> Seq<char>
    decreases locations.len(),
{
    if locations.len() == 0 {
        numbered("file"@, id)
    } else {
        match location_name(locations[0]) {
            Some(n) => n,
            None => file_name(locations.drop_first(), id),
        }
    }
}

/// The name that a document asks for.
pub open spec fn rendered_name(doc: DocumentView) -> Seq<char> {
    let dir = schema_dir(doc.schema);
    if dir == "Tabs"@ || dir == "Links"@ {
        slug_of(link_title(doc)) + ".url"@
    } else if dir == "Notes"@ {
        slug_of(own_title(doc, "note"@)) + ".md"@
    } else if dir == "Todos"@ {
        slug_of(own_title(doc, "todo"@)) + ".md"@
    } else if dir == "Files"@ {
        let name = safe_filename(file_name(doc.locations, doc.id));
        if doc.size is Some {
            name
        } else {
            name + ".json"@
        }
    } else {
        slug_of(
            or_text(
                field(doc.data, json_title_keys()),
                numbered(schema_tail(doc.schema), doc.id),
            ),
        ) + ".json"@
    }
}

/// A document's content as a file.
pub open spec fn rendered_content(doc: DocumentView) -> RenderedContent {
    let dir = schema_dir(doc.schema);
    if dir == "Tabs"@ || dir == "Links"@ {
        RenderedContent::Inline(encode_utf8(shortcut(link_url(doc.data))))
    } else if dir == "Notes"@ {
        RenderedContent::Inline(encode_utf8(note_text(doc.data)))
    } else if dir == "Todos"@ {
        RenderedContent::Inline(
            encode_utf8(
                todo_text(
                    own_title(doc, "todo"@),
                    todo_done(doc.data),
                    field(doc.data, seq!["description"@]),
                ),
            ),
        )
    } else if dir == "Files"@ && doc.size is Some {
        RenderedContent::Remote(doc.size->0)
    } else {
        RenderedContent::Inline(json::pretty_bytes(doc.data))
    }
}

impl Rendered {
    /// The file is what the document says.
    pub open spec fn shows(&self, doc: DocumentView) -> bool {
        &&& self.dir@ == schema_dir(doc.schema)
        &&& self.base_name@ == rendered_name(doc)
        &&& self.content@ == rendered_content(doc)
    }

    /// A file with bytes of its own.
    pub fn inline(dir: &'static str, base_name: String, content: Vec<u8>) -> (r: Self)
        ensures
            r.dir@ == dir@,
            r.base_name@ == base_name@,
            r.content@ == RenderedContent::Inline(content@),
    {
        Rendered { dir, base_name, content: Content::Inline(content) }
    }
}

/// The directory names differ from each other.
proof fn lemma_dirs_differ()
    ensures
        "Tabs"@ != "Notes"@,
        "Tabs"@ != "Todos"@,
        "Tabs"@ != "Files"@,
        "Tabs"@ != "Emails"@,
        "Tabs"@ != "Other"@,
        "Links"@ != "Notes"@,
        "Links"@ != "Todos"@,
        "Links"@ != "Files"@,
        "Links"@ != "Emails"@,
        "Links"@ != "Other"@,
        "Notes"@ != "Todos"@,
        "Notes"@ != "Files"@,
        "Notes"@ != "Emails"@,
        "Notes"@ != "Other"@,
        "Todos"@ != "Files"@,
        "Todos"@ != "Emails"@,
        "Todos"@ != "Other"@,
        "Files"@ != "Emails"@,
        "Files"@ != "Other"@,
        "Tabs"@ != "Links"@,
        "Emails"@ != "Links"@,
        "Emails"@ != "Other"@,
        "Links"@ != "Other"@,
{
    reveal_strlit("Tabs");
    reveal_strlit("Links");
    reveal_strlit("Notes");
    reveal_strlit("Todos");
    reveal_strlit("Files");
    reveal_strlit("Emails");
    reveal_strlit("Other");
    assert("Tabs"@[0] == 'T' && "Todos"@[0] == 'T' && "Tabs"@[1] == 'a' && "Todos"@[1] == 'o');
    assert("Links"@[0] == 'L' && "Notes"@[0] == 'N' && "Files"@[0] == 'F');
    assert("Emails"@[0] == 'E' && "Other"@[0] == 'O');
}

fn render_link(doc: &Document, dir: &'static str) -> (r: Rendered)
    requires
        dir@ == schema_dir(doc@.schema),
        dir@ == "Tabs"@ || dir@ == "Links"@,
    ensures
        r.shows(doc@),
{
    let url = match one_field(&doc.data, "url") {
        Some(u) => copy_text(u.as_str()),
        None => copy_text("about:blank"),
    };
    let title = match one_field(&doc.data, "title") {
        Some(t) => copy_text(t.as_str()),
        None => match host_of(url.as_str()) {
            Some(h) => h,
            None => numbered_text("tab", doc.id),
        },
    };
    let mut name = slug(title.as_str());
    name.append(".url");
    let mut body = copy_text("[InternetShortcut]\r\nURL=");
    body.append(url.as_str());
    body.append("\r\n");
    Rendered::inline(dir, name, bytes_of(body.as_str()))
}

fn title_or_number(doc: &Document, word: &str) -> (r: String)
    ensures
        r@ == own_title(doc@, word@),
{
    match one_field(&doc.data, "title") {
        Some(t) => copy_text(t.as_str()),
        None => numbered_text(word, doc.id),
    }
}

fn render_note(doc: &Document) -> (r: Rendered)
    requires
        schema_dir(doc@.schema) == "Notes"@,
    ensures
        r.shows(doc@),
{
    proof {
        lemma_dirs_differ();
    }
    let mut name = slug(title_or_number(doc, "note").as_str());
    name.append(".md");
    let mut content = match one_field(&doc.data, "content") {
        Some(c) => copy_text(c.as_str()),
        None => String::new(),
    };
    let c = chars_of(content.as_str());
    if c.len() > 0 && c[c.len() - 1] != '\n' {
        content.push('\n');
    }
    Rendered::inline("Notes", name, bytes_of(content.as_str()))
}

/// The Markdown text of a todo.
fn todo_markdown(title: &str, done: bool, description: Option<&String>) -> (r: String)
    ensures
        r@ == todo_text(
            title@,
            done,
            match description {
                Some(d) => Some(d@),
                None => None,
            },
        ),
{
    let mut out = copy_text("- [");
    out.append(if done {
        "x"
    } else {
        " "
    });
    out.append("] ");
    out.append(title);
    out.append("\n");
    if let Some(d) = description {
        out.append("\n");
        out.append(d.as_str());
        out.append("\n");
    }
    out
}

fn is_done(data: &Json) -> (r: bool)
    ensures
        r == todo_done(data@),
{
    let mark = match data.get("completed") {
        Some(v) => Some(v),
        None => data.get("done"),
    };
    match mark {
        Some(v) => match v.as_bool() {
            Some(b) => b,
            None => false,
        },
        None => false,
    }
}

fn render_todo(doc: &Document) -> (r: Rendered)
    requires
        schema_dir(doc@.schema) == "Todos"@,
    ensures
        r.shows(doc@),
{
    proof {
        lemma_dirs_differ();
    }
    let title = title_or_number(doc, "todo");
    let mut name = slug(title.as_str());
    name.append(".md");
    let body = todo_markdown(title.as_str(), is_done(&doc.data), one_field(
        &doc.data,
        "description",
    ));
    Rendered::inline("Todos", name, bytes_of(body.as_str()))
}

fn named_by_location(doc: &Document) -> (r: String)
    ensures
        r@ == file_name(doc@.locations, doc@.id),
{
    let ghost all = doc@.locations;
    let mut i: usize = 0;
    assert(all.skip(0) =~= all);
    while i < doc.locations.len()
        invariant
            i <= doc.locations@.len(),
            all == doc@.locations,
            all.len() == doc.locations@.len(),
            file_name(all, doc.id) == file_name(all.skip(i as int), doc.id),
        decreases doc.locations@.len() - i,
    {
        assert(all.skip(i as int).drop_first() =~= all.skip(i + 1));
        if let Some(n) = location_basename(doc.locations[i].as_str()) {
            return n;
        }
        i = i + 1;
    }
    numbered_text("file", doc.id)
}

/// A file shows its real name and its blob's bytes. Where its size is not known no size could
/// be promised, so it shows its document in JSON instead.
fn render_file(doc: &Document) -> (r: Rendered)
    requires
        schema_dir(doc@.schema) == "Files"@,
    ensures
        r.shows(doc@),
{
    proof {
        lemma_dirs_differ();
    }
    let mut name = sanitize_filename(named_by_location(doc).as_str());
    match doc.size {
        Some(size) => Rendered {
            dir: "Files",
            base_name: name,
            content: Content::Remote { size },
        },
        None => {
            name.append(".json");
            Rendered::inline("Files", name, doc.data.pretty())
        },
    }
}

fn render_json(doc: &Document, dir: &'static str) -> (r: Rendered)
    requires
        dir@ == schema_dir(doc@.schema),
        dir@ == "Emails"@ || dir@ == "Other"@,
    ensures
        r.shows(doc@),
{
    proof {
        lemma_dirs_differ();
    }
    let keys = ["title", "name", "subject", "filename"];
    assert(key_texts(keys@) =~= json_title_keys());
    let title = match str_field(&doc.data, &keys) {
        Some(t) => copy_text(t.as_str()),
        None => numbered_text(short_schema(doc.schema.as_str()).as_str(), doc.id),
    };
    let mut name = slug(title.as_str());
    name.append(".json");
    Rendered::inline(dir, name, doc.data.pretty())
}

/// Renders a document as a file of its schema's directory.
pub fn render(doc: &Document) -> (r: Rendered)
    ensures
        r.shows(doc@),
{
    let schema = doc.schema.as_str();
    if same_text(schema, "data/abstraction/tab") {
        render_link(doc, "Tabs")
    } else if same_text(schema, "data/abstraction/link") {
        render_link(doc, "Links")
    } else if same_text(schema, "data/abstraction/note") {
        render_note(doc)
    } else if same_text(schema, "data/abstraction/todo") {
        render_todo(doc)
    } else if same_text(schema, "data/abstraction/file") {
        render_file(doc)
    } else if same_text(schema, "data/abstraction/email") {
        render_json(doc, "Emails")
    } else {
        render_json(doc, "Other")
    }
}

/// The name of a document as a file of a tree's directory: the file name that it was saved
/// under, or else the name that it asks for.
pub open spec fn flat_name(doc: DocumentView) -> Seq<char> {
    match doc.data.member_text("filename"@) {
        Some(n) => if not_blank(n) {
            safe_filename(text::trimmed(n))
        } else {
            rendered_name(doc)
        },
        None => rendered_name(doc),
    }
}

/// Renders a document as a file of a tree's directory, which has no schema directories below
/// it. The content is that of [`render`].
pub fn flat(doc: &Document) -> (r: (String, Content))
    ensures
        r.0@ == flat_name(doc@),
        r.1@ == rendered_content(doc@),
{
    let shown = render(doc);
    match doc.data.get_str("filename") {
        Some(n) => {
            let t = trim_text(n.as_str());
            if t.as_str().is_empty() {
                (shown.base_name, shown.content)
            } else {
                (sanitize_filename(t.as_str()), shown.content)
            }
        },
        None => (shown.base_name, shown.content),
    }
}

} // verus!
