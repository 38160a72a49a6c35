//! What the names and contents of files promise.

use crate::api;
use crate::json::JsonView;
use crate::markdown;
use crate::markdown::TodoView;
use crate::render;
use crate::text;
use crate::text::CharClass;
use vstd::prelude::*;
use vstd::string::*;
use vstd::utf8::*;

verus! {

// ── names ────────────────────────────────────────────────────────────────────

/// Whether a name can be that of a file: it is not empty, holds nothing that separates paths or
/// ends them, and is not one that stands for a directory.
pub open spec fn is_file_name(name: Seq<char>) -> bool {
    &&& name.len() > 0
    &&& forall|i: int|
        0 <= i < name.len() ==> #[trigger] name[i] != '/' && name[i] != '\\' && name[i] != '\0'
    &&& name[0] != '.' || name.last() != '.'
}

proof fn lemma_slug_chars(out: Seq<char>, rest: Seq<char>)
    requires
        out.len() <= render::SLUG_LIMIT,
        forall|i: int|
            0 <= i < out.len() ==> render::slug_keeps(#[trigger] out[i]) || out[i] == '-',
    ensures
        render::slug_from(out, rest).len() <= render::SLUG_LIMIT,
        forall|i: int|
            0 <= i < render::slug_from(out, rest).len() ==> render::slug_keeps(
                #[trigger] render::slug_from(out, rest)[i],
            ) || render::slug_from(out, rest)[i] == '-',
    decreases rest.len(),
{
    if rest.len() > 0 && out.len() < render::SLUG_LIMIT {
        lemma_slug_chars(render::slug_step(out, rest[0]), rest.drop_first());
    }
}

/// The name that a title gives is that of a file, has at most eighty characters, and neither
/// starts nor ends with a dash or a dot.
pub proof fn law_slug_is_a_file_name(title: Seq<char>)
    ensures
        is_file_name(render::slug_of(title)),
        render::slug_of(title).len() <= render::SLUG_LIMIT,
        render::slug_of(title)[0] != '-' && render::slug_of(title)[0] != '.',
        render::slug_of(title).last() != '-' && render::slug_of(title).last() != '.',
{
    let s = render::slug_from(Seq::empty(), text::trimmed(title));
    lemma_slug_chars(Seq::empty(), text::trimmed(title));
    text::lemma_strip_props(s, CharClass::Either('-', '.'));
    reveal_strlit("untitled");
    let t = text::strip(s, CharClass::Either('-', '.'));
    assert forall|i: int| 0 <= i < t.len() implies #[trigger] t[i] != '/' && t[i] != '\\' && t[i]
        != '\0' by {
        assert(s.contains(t[i]));
        let j = choose|j: int| 0 <= j < s.len() && s[j] == t[i];
        assert(render::slug_keeps(s[j]) || s[j] == '-');
    }
}

/// Whether a text is written as slugs are: with kept characters, and single dashes between them.
spec fn is_slug(s: Seq<char>) -> bool {
    &&& forall|i: int| 0 <= i < s.len() ==> render::slug_keeps(#[trigger] s[i]) || s[i] == '-'
    &&& forall|i: int| 0 < i < s.len() && #[trigger] s[i] == '-' ==> s[i - 1] != '-'
}

proof fn lemma_slug_from_is_slug(out: Seq<char>, rest: Seq<char>)
    requires
        is_slug(out),
    ensures
        is_slug(render::slug_from(out, rest)),
    decreases rest.len(),
{
    if rest.len() > 0 && out.len() < render::SLUG_LIMIT {
        lemma_slug_from_is_slug(render::slug_step(out, rest[0]), rest.drop_first());
    }
}

/// A text that is written as slugs are stays as it is.
proof fn lemma_slug_from_keeps(s: Seq<char>, i: int)
    requires
        is_slug(s),
        s.len() <= render::SLUG_LIMIT,
        s.len() > 0 ==> s[0] != '-',
        0 <= i <= s.len(),
    ensures
        render::slug_from(s.take(i), s.skip(i)) == s,
    decreases s.len() - i,
{
    if i == s.len() {
        assert(s.take(i) =~= s);
    } else {
        let c = s[i];
        assert(s.skip(i)[0] == c);
        assert(s.skip(i).drop_first() =~= s.skip(i + 1));
        assert(s.take(i).push(c) =~= s.take(i + 1));
        if c == '-' {
            assert(s.take(i).last() == s[i - 1]);
        } else {
            assert(render::slug_keeps(c));
        }
        lemma_slug_from_keeps(s, i + 1);
    }
}

/// The name that a name gives is that name.
pub proof fn law_slug_of_a_slug(title: Seq<char>)
    ensures
        render::slug_of(render::slug_of(title)) == render::slug_of(title),
{
    let dashes = CharClass::Either('-', '.');
    let s = render::slug_from(Seq::empty(), text::trimmed(title));
    let t = render::slug_of(title);
    law_slug_is_a_file_name(title);
    lemma_slug_from_is_slug(Seq::empty(), text::trimmed(title));
    let from = text::lemma_strip_is_part(s, dashes);
    reveal_strlit("untitled");
    assert(is_slug(t)) by {
        if text::strip(s, dashes).len() > 0 {
            assert forall|i: int| 0 <= i < t.len() implies render::slug_keeps(#[trigger] t[i])
                || t[i] == '-' by {
                assert(t[i] == s[from + i]);
            }
            assert forall|i: int| 0 < i < t.len() && #[trigger] t[i] == '-' implies t[i - 1]
                != '-' by {
                assert(t[i] == s[from + i] && t[i - 1] == s[from + i - 1]);
            }
        }
    }
    assert(render::slug_keeps(t[0]) && render::slug_keeps(t[t.len() - 1]));
    text::lemma_strip_id(t, CharClass::White);
    lemma_slug_from_keeps(t, 0);
    assert(t.take(0) =~= Seq::empty());
    assert(t.skip(0) =~= t);
    text::lemma_strip_id(t, dashes);
}

proof fn lemma_without_separators(s: Seq<char>)
    ensures
        forall|i: int|
            0 <= i < render::without_separators(s).len() ==> #[trigger] render::without_separators(
                s,
            )[i] != '/' && render::without_separators(s)[i] != '\\' && render::without_separators(
                s,
            )[i] != '\0',
    decreases s.len(),
{
    if s.len() > 0 {
        lemma_without_separators(s.drop_last());
        let f = render::without_separators(s.drop_last());
        let r = render::without_separators(s);
        assert forall|i: int| 0 <= i < r.len() implies #[trigger] r[i] != '/' && r[i] != '\\'
            && r[i] != '\0' by {
            if i < f.len() {
                assert(r[i] == f[i]);
            }
        }
    }
}

/// What is kept of a real file name is that of a file, and neither starts nor ends with a dot.
pub proof fn law_kept_name_is_a_file_name(name: Seq<char>)
    ensures
        is_file_name(render::safe_filename(name)),
        render::safe_filename(name)[0] != '.',
        render::safe_filename(name).last() != '.',
{
    let w = render::without_separators(name);
    lemma_without_separators(name);
    let u = text::trimmed(w);
    text::lemma_strip_props(w, CharClass::White);
    let t = text::strip(u, CharClass::Is('.'));
    text::lemma_strip_props(u, CharClass::Is('.'));
    reveal_strlit("unnamed");
    assert forall|i: int| 0 <= i < t.len() implies #[trigger] t[i] != '/' && t[i] != '\\' && t[i]
        != '\0' by {
        assert(u.contains(t[i]));
        let j = choose|j: int| 0 <= j < u.len() && u[j] == t[i];
        assert(w.contains(u[j]));
        let k = choose|k: int| 0 <= k < w.len() && w[k] == u[j];
        assert(w[k] != '/');
    }
}

/// A title that a heading gives is not blank, has at most two hundred characters and starts with
/// no white space.
pub proof fn law_heading_gives_a_title(lines: Seq<Seq<char>>, in_fence: bool)
    ensures
        (match markdown::heading_in(lines, in_fence) {
            Some(t) => 0 < t.len() <= markdown::TITLE_LIMIT && !text::is_white_space(t[0]),
            None => true,
        }),
    decreases lines.len(),
{
    if lines.len() > 0 {
        let line = text::trimmed(lines[0]);
        law_heading_gives_a_title(lines.drop_first(), !in_fence);
        law_heading_gives_a_title(lines.drop_first(), in_fence);
        let t = text::strip_back(
            text::trimmed(line.skip("# "@.len() as int)),
            CharClass::Is('#'),
        );
        text::lemma_strip_props(t, CharClass::White);
    }
}

// ── percent escapes ──────────────────────────────────────────────────────────

proof fn lemma_ascii_byte(v: u32)
    by (bit_vector)
    requires
        v < 128,
    ensures
        (v & 0x7F) as u8 == v as u8,
{
}

/// A character of ASCII is written as one byte.
pub proof fn lemma_encode_ascii(c: char)
    requires
        (c as u32) < 128,
    ensures
        encode_utf8(seq![c]) == seq![c as u32 as u8],
{
    lemma_ascii_byte(c as u32);
    let s = seq![c];
    assert(s.drop_first() =~= Seq::empty());
    assert(encode_utf8(s.drop_first()) =~= Seq::empty());
    assert(encode_utf8(s) =~= encode_scalar(c as u32));
}

pub proof fn lemma_encode_concat(a: Seq<char>, b: Seq<char>)
    ensures
        encode_utf8(a + b) == encode_utf8(a) + encode_utf8(b),
    decreases a.len(),
{
    if a.len() == 0 {
        assert(a + b =~= b);
        assert(encode_utf8(a) + encode_utf8(b) =~= encode_utf8(b));
    } else {
        lemma_encode_concat(a.drop_first(), b);
        assert((a + b).drop_first() =~= a.drop_first() + b);
        assert((a + b)[0] == a[0]);
        let x = encode_scalar(a[0] as u32);
        assert(x + (encode_utf8(a.drop_first()) + encode_utf8(b)) =~= (x + encode_utf8(
            a.drop_first(),
        )) + encode_utf8(b));
    }
}

proof fn lemma_encoded_first(bytes: Seq<u8>)
    requires
        bytes.len() > 0,
    ensures
        api::encoded(bytes, false) == api::encoded_byte(bytes[0], false) + api::encoded(
            bytes.drop_first(),
            false,
        ),
    decreases bytes.len(),
{
    if bytes.len() == 1 {
        assert(bytes.drop_last() =~= Seq::empty());
        assert(bytes.drop_first() =~= Seq::empty());
        assert(api::encoded(bytes.drop_last(), false) =~= Seq::empty());
        assert(api::encoded(bytes, false) =~= api::encoded_byte(bytes[0], false));
        assert(api::encoded(bytes.drop_first(), false) =~= Seq::empty());
        assert(api::encoded_byte(bytes[0], false) + api::encoded(Seq::empty(), false)
            =~= api::encoded_byte(bytes[0], false));
    } else {
        lemma_encoded_first(bytes.drop_last());
        assert(bytes.drop_last().drop_first() =~= bytes.drop_first().drop_last());
        assert(bytes.drop_last()[0] == bytes[0]);
        assert(bytes.drop_first().last() == bytes.last());
        let x = api::encoded_byte(bytes[0], false);
        let m = api::encoded(bytes.drop_first().drop_last(), false);
        let y = api::encoded_byte(bytes.last(), false);
        assert((x + m) + y =~= x + (m + y));
    }
}

proof fn lemma_hex_upper(n: u8)
    requires
        n < 16,
    ensures
        (text::hex_upper(n as nat) as u32) < 128,
        render::hex_digit(text::hex_upper(n as nat) as u32 as u8) == Some(n),
{
}

/// How one byte is written, in bytes.
proof fn lemma_decode_byte(b: u8, rest: Seq<u8>)
    ensures
        render::percent_decoded(encode_utf8(api::encoded_byte(b, false)) + rest) == seq![b]
            + render::percent_decoded(rest),
{
    let e = api::encoded_byte(b, false);
    if api::unreserved(b) {
        let c = b as char;
        lemma_encode_ascii(c);
        assert(e =~= seq![c]);
        let all = encode_utf8(e) + rest;
        assert(all[0] == b);
        assert(all.skip(1) =~= rest);
    } else {
        let h = (b / 16) as u8;
        let l = (b % 16) as u8;
        let hc = text::hex_upper(h as nat);
        let lc = text::hex_upper(l as nat);
        lemma_hex_upper(h);
        lemma_hex_upper(l);
        lemma_encode_ascii('%');
        lemma_encode_ascii(hc);
        lemma_encode_ascii(lc);
        assert(e =~= seq!['%'] + (seq![hc] + seq![lc]));
        lemma_encode_concat(seq!['%'], seq![hc] + seq![lc]);
        lemma_encode_concat(seq![hc], seq![lc]);
        let all = encode_utf8(e) + rest;
        assert(encode_utf8(e) =~= seq![37u8, hc as u32 as u8, lc as u32 as u8]);
        assert(all[0] == 37 && all[1] == hc as u32 as u8 && all[2] == lc as u32 as u8);
        assert(all.skip(3) =~= rest);
        assert(h * 16 + l == b);
    }
}

proof fn lemma_decode_encoded(bytes: Seq<u8>)
    ensures
        render::percent_decoded(encode_utf8(api::encoded(bytes, false))) == bytes,
    decreases bytes.len(),
{
    if bytes.len() == 0 {
        assert(encode_utf8(api::encoded(bytes, false)) =~= Seq::empty());
        assert(render::percent_decoded(Seq::empty()) =~= bytes);
    } else {
        let f = bytes.drop_first();
        lemma_encoded_first(bytes);
        lemma_decode_encoded(f);
        lemma_encode_concat(api::encoded_byte(bytes[0], false), api::encoded(f, false));
        lemma_decode_byte(bytes[0], encode_utf8(api::encoded(f, false)));
        assert(seq![bytes[0]] + f =~= bytes);
    }
}

/// A text that was written for a URL reads back as it was.
pub proof fn law_escapes_read_back(s: Seq<char>)
    ensures
        render::utf8_text(render::percent_decoded(encode_utf8(api::segment(s)))) == s,
{
    lemma_decode_encoded(encode_utf8(s));
    encode_utf8_valid_utf8(s);
    encode_utf8_decode_utf8(s);
}

/// Whether a character may stand in a segment of a URL.
pub open spec fn in_segment(c: char) -> bool {
    c != '/' && c != '?' && c != '#' && c != '&' && c != ' '
}

/// A text that was written for a URL holds nothing that would end its segment or its value.
pub proof fn law_segment_is_one(bytes: Seq<u8>)
    ensures
        forall|i: int|
            0 <= i < api::encoded(bytes, false).len() ==> in_segment(
                #[trigger] api::encoded(bytes, false)[i],
            ),
    decreases bytes.len(),
{
    if bytes.len() > 0 {
        law_segment_is_one(bytes.drop_last());
        let b = bytes.last();
        let f = api::encoded(bytes.drop_last(), false);
        let e = api::encoded_byte(b, false);
        let r = api::encoded(bytes, false);
        assert(r == f + e);
        assert forall|i: int| 0 <= i < r.len() implies in_segment(#[trigger] r[i]) by {
            if i < f.len() {
                assert(r[i] == f[i]);
            } else {
                assert(r[i] == e[i - f.len()]);
            }
        }
    }
}

// ── contents ─────────────────────────────────────────────────────────────────

/// Whether a text has white space at neither end, and is not empty.
pub open spec fn is_trim(s: Seq<char>) -> bool {
    s.len() > 0 && !text::is_white_space(s[0]) && !text::is_white_space(s.last())
}

/// Whether no carriage return stands before a line feed.
pub open spec fn plain_lines(s: Seq<char>) -> bool {
    forall|i: int| 0 <= i < s.len() - 1 && #[trigger] s[i + 1] == '\n' ==> s[i] != '\r'
}

/// Lines that were split are put together again.
pub proof fn lemma_join_lines(s: Seq<char>)
    requires
        s.len() > 0,
        s.last() != '\n',
        s.last() != '\r',
        plain_lines(s),
    ensures
        markdown::lines_of(s.push('\n')).len() > 0,
        markdown::joined(markdown::lines_of(s.push('\n'))) == s,
    decreases s.len(),
{
    let k = CharClass::Is('\n');
    let t = s.push('\n');
    let i = text::find(t, k);
    text::lemma_find_props(t, k);
    assert(t[s.len() as int] == '\n');
    assert(0 <= i <= s.len());
    let head = t.take(i);
    let rest = t.skip(i + 1);
    assert(markdown::lines_of(t) == seq![markdown::chomped(head)] + markdown::lines_of(rest));
    if i == s.len() {
        assert(head =~= s);
        assert(rest =~= Seq::empty());
        assert(markdown::lines_of(rest) =~= Seq::empty());
        assert(markdown::lines_of(t) =~= seq![s]);
    } else {
        assert(t[i] == '\n');
        assert(i < s.len() - 1);
        let u = s.skip(i + 1);
        assert(rest =~= u.push('\n'));
        assert(u.last() == s.last());
        assert forall|j: int| 0 <= j < u.len() - 1 && #[trigger] u[j + 1] == '\n' implies u[j]
            != '\r' by {
            assert(s[(j + i + 1) + 1] == u[j + 1]);
        }
        lemma_join_lines(u);
        assert(markdown::chomped(head) == head) by {
            if i > 0 {
                assert(head.last() == s[i - 1]);
                assert(s[(i - 1) + 1] == '\n');
            }
        }
        let l = markdown::lines_of(t);
        assert(l[0] == head);
        assert(l.drop_first() =~= markdown::lines_of(rest));
        assert(head + seq!['\n'] + u =~= s);
    }
}

/// The first line of a text that has one.
pub proof fn lemma_first_line(line: Seq<char>, rest: Seq<char>)
    requires
        forall|i: int| 0 <= i < line.len() ==> #[trigger] line[i] != '\n',
        line.len() == 0 || line.last() != '\r',
    ensures
        markdown::lines_of(line + seq!['\n'] + rest) == seq![line] + markdown::lines_of(rest),
{
    let k = CharClass::Is('\n');
    let t = line + seq!['\n'] + rest;
    let n = line.len() as int;
    assert(t[n] == '\n');
    assert forall|j: int| 0 <= j < n implies !k.holds(#[trigger] t[j]) by {
        assert(t[j] == line[j]);
    }
    text::lemma_find(t, k, n);
    assert(t.take(n) =~= line);
    assert(t.skip(n + 1) =~= rest);
}

/// The line of a todo reads back.
proof fn lemma_todo_line(title: Seq<char>, done: bool)
    requires
        is_trim(title),
    ensures
        ({
            let line = "- ["@ + (if done {
                "x"@
            } else {
                " "@
            }) + "] "@ + title;
            &&& text::trimmed(line) == line
            &&& line.len() > 0
            &&& line.last() == title.last()
            &&& markdown::todo_line(line) == (title, done)
        }),
{
    reveal_strlit("- [");
    reveal_strlit("x");
    reveal_strlit("X");
    reveal_strlit(" ");
    reveal_strlit("] ");
    let mark = if done {
        "x"@
    } else {
        " "@
    };
    let line = "- ["@ + mark + "] "@ + title;
    assert(line[0] == '-');
    assert(line.last() == title.last());
    text::lemma_strip_id(line, CharClass::White);
    let rest = line.skip(3);
    let k = CharClass::Is(']');
    assert(rest[0] == mark[0]);
    assert(rest[1] == ']');
    text::lemma_find(rest, k, 1);
    assert(rest.take(1) =~= mark);
    let tail = rest.skip(2);
    assert(tail =~= seq![' '] + title);
    lemma_trim_front(' ', title);
    assert(line.take(3) =~= "- ["@);
    if done {
        text::lemma_strip_id("x"@, CharClass::White);
    } else {
        text::lemma_strip_props(" "@, CharClass::White);
        let b = text::trimmed(" "@);
        if b.len() > 0 {
            assert(" "@.contains(b[0]));
        }
    }
}

/// One white space before a text that has none at its ends goes.
proof fn lemma_trim_front(c: char, s: Seq<char>)
    requires
        text::is_white_space(c),
        is_trim(s),
    ensures
        text::trimmed(seq![c] + s) == s,
{
    let t = seq![c] + s;
    assert(t.drop_first() =~= s);
    assert(text::strip_front(t, CharClass::White) == text::strip_front(s, CharClass::White));
    text::lemma_strip_id(s, CharClass::White);
}

/// A todo that was written to its file reads back as it was: its title, whether it is done, and
/// its description.
pub proof fn law_todo_reads_back(title: Seq<char>, done: bool, description: Option<Seq<char>>)
    requires
        is_trim(title),
        forall|i: int| 0 <= i < title.len() ==> #[trigger] title[i] != '\n',
        description is Some ==> is_trim(description->0) && plain_lines(description->0),
    ensures
        markdown::todo_of(render::todo_text(title, done, description)) == (TodoView {
            title,
            done,
            description,
        }),
{
    reveal_strlit("- [");
    reveal_strlit("x");
    reveal_strlit(" ");
    reveal_strlit("] ");
    reveal_strlit("\n");
    let mark = if done {
        "x"@
    } else {
        " "@
    };
    let line = "- ["@ + mark + "] "@ + title;
    lemma_todo_line(title, done);
    assert forall|i: int| 0 <= i < line.len() implies #[trigger] line[i] != '\n' by {
        if i >= 6 {
            assert(line[i] == title[i - 6]);
        }
    }
    assert("\n"@ =~= seq!['\n']);
    match description {
        None => {
            let s = render::todo_text(title, done, description);
            assert(s =~= line + seq!['\n'] + Seq::empty());
            lemma_first_line(line, Seq::empty());
            let l = markdown::lines_of(s);
            assert(markdown::lines_of(Seq::empty()) =~= Seq::empty());
            assert(l =~= seq![line]);
            assert(l.drop_first() =~= Seq::empty());
            let j = markdown::joined(l.drop_first());
            assert(j =~= Seq::empty());
            text::lemma_strip_id(j, CharClass::White);
        },
        Some(d) => {
            let body = seq!['\n'] + d + seq!['\n'];
            let s = render::todo_text(title, done, description);
            assert(s =~= line + seq!['\n'] + body);
            lemma_first_line(line, body);
            lemma_first_line(Seq::empty(), d.push('\n'));
            assert(Seq::<char>::empty() + seq!['\n'] + d.push('\n') =~= body);
            lemma_join_lines(d);
            let l = markdown::lines_of(s);
            let b = markdown::lines_of(body);
            let m = markdown::lines_of(d.push('\n'));
            assert(l =~= seq![line] + b);
            assert(b =~= seq![Seq::<char>::empty()] + m);
            assert(l.drop_first() =~= b);
            assert(b.drop_first() =~= m);
            assert(b.len() > 1);
            assert(markdown::joined(b) == b[0] + seq!['\n'] + markdown::joined(m));
            assert(markdown::joined(b) =~= seq!['\n'] + d);
            lemma_trim_front('\n', d);
            assert(l[0] == line);
        },
    }
}

/// A note that was saved is shown as it was saved, where it is UTF-8, not blank, and ends with a
/// line feed.
pub proof fn law_note_reads_back(dir: Seq<char>, data: JsonView, content: Seq<char>)
    requires
        dir == "Notes"@,
        render::not_blank(content),
        content.last() == '\n',
    ensures
        render::note_text(markdown::saved_data(dir, data, encode_utf8(content))) == content,
{
    reveal_strlit("Notes");
    reveal_strlit("Todos");
    reveal_strlit("content");
    reveal_strlit("title");
    assert("Notes"@[0] == 'N' && "Todos"@[0] == 'T');
    assert("content"@[0] == 'c' && "title"@[0] == 't');
    encode_utf8_valid_utf8(content);
    encode_utf8_decode_utf8(content);
    let saved = markdown::saved_data(dir, data, encode_utf8(content));
    assert(saved.member_text("content"@) == Some(content));
    assert(render::first_text(saved, seq!["content"@]) == Some(content)) by {
        assert(seq!["content"@][0] == "content"@);
    }
    if content.len() == 0 {
        text::lemma_strip_props(content, CharClass::White);
    }
}

/// Saving changes nothing of a document that its file does not carry.
pub proof fn law_save_keeps_the_rest(
    dir: Seq<char>,
    data: JsonView,
    buffer: Seq<u8>,
    key: Seq<char>,
)
    requires
        data.takes_members(),
        key != "title"@,
        key != "content"@,
        key != "completed"@,
        key != "description"@,
    ensures
        markdown::saved_data(dir, data, buffer).member(key) == data.member(key),
{
}

} // verus!
