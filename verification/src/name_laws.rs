//! What becomes of titles, URLs and file names.

use crate::content_laws;
use crate::content_laws::blank;
use crate::render;
use crate::text;
use crate::text::CharClass;
use vstd::prelude::*;
use vstd::string::*;
use vstd::utf8::*;

verus! {

// ── titles ───────────────────────────────────────────────────────────────────

/// Whether a character is a letter or a digit, in ASCII or in another script.
pub open spec fn is_letter(c: char) -> bool {
    ||| 'a' <= c <= 'z' || 'A' <= c <= 'Z' || '0' <= c <= '9'
    ||| c as u32 >= 128 && !text::is_white_space(c) && render::unicode_alphanumeric(c)
}

/// Whether a character stays in a name.
pub open spec fn stays(c: char) -> bool {
    is_letter(c) || c == '.' || c == '_' || c == '(' || c == ')' || c == '[' || c == ']'
}

/// Whether a character parts words.
pub open spec fn parts(c: char) -> bool {
    c == ' ' || c == '\t' || c == '-' || c == '/' || c == '\\' || c == ':' || c == '|'
}

/// Whether all of a text stays in a name.
pub open spec fn is_word(s: Seq<char>) -> bool {
    s.len() > 0 && forall|i: int| 0 <= i < s.len() ==> stays(#[trigger] s[i])
}

proof fn lemma_slug_from_concat(out: Seq<char>, a: Seq<char>, b: Seq<char>)
    ensures
        render::slug_from(out, a + b) == render::slug_from(render::slug_from(out, a), b),
    decreases a.len(),
{
    if out.len() >= render::SLUG_LIMIT {
    } else if a.len() == 0 {
        assert(a + b =~= b);
    } else {
        assert((a + b)[0] == a[0]);
        assert((a + b).drop_first() =~= a.drop_first() + b);
        lemma_slug_from_concat(render::slug_step(out, a[0]), a.drop_first(), b);
    }
}

proof fn lemma_slug_from_word(out: Seq<char>, s: Seq<char>)
    requires
        forall|i: int| 0 <= i < s.len() ==> stays(#[trigger] s[i]),
        out.len() + s.len() <= 80,
    ensures
        render::slug_from(out, s) == out + s,
    decreases s.len(),
{
    if s.len() == 0 {
        assert(out + s =~= out);
    } else {
        let f = s.drop_first();
        assert(forall|i: int| 0 <= i < f.len() ==> f[i] == s[i + 1]);
        assert(stays(s[0]));
        lemma_slug_from_word(out.push(s[0]), f);
        assert(out.push(s[0]) + f =~= out + s);
    }
}

/// A title of one word is its own name.
pub proof fn law_a_word_is_its_name(s: Seq<char>)
    requires
        is_word(s),
        s.len() <= 80,
        s[0] != '.',
        s.last() != '.',
    ensures
        render::slug_of(s) == s,
{
    assert(stays(s[0]) && stays(s[s.len() - 1]));
    text::lemma_strip_id(s, CharClass::White);
    lemma_slug_from_word(Seq::empty(), s);
    assert(Seq::<char>::empty() + s =~= s);
    text::lemma_strip_id(s, CharClass::Either('-', '.'));
}

/// Words are joined by one dash, whatever parts them and however much of it.
pub proof fn law_words_are_joined_by_a_dash(a: Seq<char>, gap: Seq<char>, b: Seq<char>)
    requires
        is_word(a),
        is_word(b),
        gap.len() > 0,
        forall|i: int| 0 <= i < gap.len() ==> parts(#[trigger] gap[i]),
        a[0] != '.',
        b.last() != '.',
        a.len() + 1 + b.len() <= 80,
    ensures
        render::slug_of(a + gap + b) == a + seq!['-'] + b,
{
    let t = a + gap + b;
    let r = a + seq!['-'] + b;
    assert(stays(a[0]) && stays(b[b.len() - 1]) && stays(a[a.len() - 1]));
    assert(t[0] == a[0] && t.last() == b[b.len() - 1]);
    text::lemma_strip_id(t, CharClass::White);
    lemma_slug_from_concat(Seq::empty(), a + gap, b);
    lemma_slug_from_concat(Seq::empty(), a, gap);
    lemma_slug_from_word(Seq::empty(), a);
    assert(Seq::<char>::empty() + a =~= a);
    lemma_slug_from_gap(a, gap);
    lemma_slug_from_word(a.push('-'), b);
    assert(a.push('-') + b =~= r);
    assert(r[0] == a[0] && r.last() == b[b.len() - 1]);
    text::lemma_strip_id(r, CharClass::Either('-', '.'));
}

proof fn lemma_slug_from_gap(a: Seq<char>, gap: Seq<char>)
    requires
        0 < a.len() < 80,
        gap.len() > 0,
        forall|i: int| 0 <= i < gap.len() ==> parts(#[trigger] gap[i]),
        a.last() != '-',
    ensures
        render::slug_from(a, gap) == a.push('-'),
{
    assert(parts(gap[0]));
    lemma_slug_from_more(a.push('-'), gap.drop_first());
}

proof fn lemma_slug_from_more(a: Seq<char>, gap: Seq<char>)
    requires
        0 < a.len() <= 80,
        forall|i: int| 0 <= i < gap.len() ==> parts(#[trigger] gap[i]),
        a.last() == '-',
    ensures
        render::slug_from(a, gap) == a,
    decreases gap.len(),
{
    if gap.len() > 0 && a.len() < 80 {
        assert(parts(gap[0]));
        let f = gap.drop_first();
        assert(forall|i: int| 0 <= i < f.len() ==> f[i] == gap[i + 1]);
        lemma_slug_from_more(a, f);
    }
}

/// A character that neither stays nor parts words goes, wherever it stands between others.
pub proof fn law_other_characters_go(a: Seq<char>, c: char, b: Seq<char>)
    requires
        !stays(c),
        !parts(c),
        a.len() > 0 && !text::is_white_space(a[0]),
        b.len() > 0 && !text::is_white_space(b.last()),
    ensures
        render::slug_of(a + seq![c] + b) == render::slug_of(a + b),
{
    let t = a + seq![c] + b;
    let u = a + b;
    assert(t[0] == a[0] && u[0] == a[0] && t.last() == b.last() && u.last() == b.last());
    text::lemma_strip_id(t, CharClass::White);
    text::lemma_strip_id(u, CharClass::White);
    lemma_slug_from_concat(Seq::empty(), a + seq![c], b);
    lemma_slug_from_concat(Seq::empty(), a, seq![c]);
    lemma_slug_from_concat(Seq::empty(), a, b);
    let s = render::slug_from(Seq::empty(), a);
    let one = seq![c];
    assert(one.drop_first() =~= Seq::empty());
    assert(render::slug_from(s, Seq::empty()) == s);
    assert(render::slug_from(s, one) == s);
}

/// White space at the ends of a title does not matter.
pub proof fn law_ends_of_a_title_do_not_matter(a: Seq<char>, s: Seq<char>, b: Seq<char>)
    requires
        blank(a),
        blank(b),
        s.len() > 0 ==> !text::is_white_space(s[0]) && !text::is_white_space(s.last()),
    ensures
        render::slug_of(a + s + b) == render::slug_of(s),
{
    content_laws::law_trim(a, s, b);
    text::lemma_strip_id(s, CharClass::White);
}

/// The letters and digits of a text, in order.
pub open spec fn letters(s: Seq<char>) -> Seq<char>
    decreases s.len(),
{
    if s.len() == 0 {
        Seq::empty()
    } else if is_letter(s.last()) {
        letters(s.drop_last()).push(s.last())
    } else {
        letters(s.drop_last())
    }
}

proof fn lemma_letters_concat(a: Seq<char>, b: Seq<char>)
    ensures
        letters(a + b) == letters(a) + letters(b),
    decreases b.len(),
{
    if b.len() == 0 {
        assert(a + b =~= a);
        assert(letters(a) + letters(b) =~= letters(a));
    } else {
        lemma_letters_concat(a, b.drop_last());
        assert((a + b).drop_last() =~= a + b.drop_last());
        assert((a + b).last() == b.last());
        assert(letters(a) + letters(b.drop_last()).push(b.last()) =~= (letters(a) + letters(
            b.drop_last(),
        )).push(b.last()));
    }
}

proof fn lemma_no_letters(s: Seq<char>)
    requires
        forall|i: int| 0 <= i < s.len() ==> !is_letter(#[trigger] s[i]),
    ensures
        letters(s) == Seq::<char>::empty(),
    decreases s.len(),
{
    if s.len() > 0 {
        assert(!is_letter(s[s.len() - 1]));
        lemma_no_letters(s.drop_last());
    }
}

proof fn lemma_slug_from_letters(out: Seq<char>, rest: Seq<char>)
    requires
        out.len() + rest.len() <= 80,
    ensures
        letters(render::slug_from(out, rest)) == letters(out) + letters(rest),
    decreases rest.len(),
{
    if rest.len() == 0 {
        assert(letters(out) + letters(rest) =~= letters(out));
    } else {
        let c = rest[0];
        let f = rest.drop_first();
        let next = render::slug_step(out, c);
        assert(next.len() <= out.len() + 1);
        lemma_slug_from_letters(next, f);
        assert(rest =~= seq![c] + f);
        lemma_letters_concat(seq![c], f);
        assert(seq![c].drop_last() =~= Seq::empty());
        assert(letters(Seq::empty()) =~= Seq::empty());
        if is_letter(c) {
            assert(next == out.push(c));
            assert(letters(next) == letters(out).push(c)) by {
                assert(next.drop_last() =~= out);
            }
            assert(letters(seq![c]) =~= seq![c]);
            assert(letters(out).push(c) + letters(f) =~= letters(out) + (seq![c] + letters(f)));
        } else {
            assert(letters(seq![c]) =~= Seq::empty());
            assert(letters(next) == letters(out)) by {
                if next != out {
                    assert(next.drop_last() =~= out);
                }
            }
            assert(letters(out) + (Seq::empty() + letters(f)) =~= letters(out) + letters(f));
        }
    }
}

proof fn lemma_strip_letters(s: Seq<char>, k: CharClass)
    requires
        forall|c: char| #[trigger] k.holds(c) ==> !is_letter(c),
    ensures
        letters(text::strip(s, k)) == letters(s),
    decreases s.len(),
{
    if s.len() > 0 && k.holds(s[0]) {
        lemma_strip_letters(s.drop_first(), k);
        assert(s =~= seq![s[0]] + s.drop_first());
        lemma_letters_concat(seq![s[0]], s.drop_first());
        lemma_no_letters(seq![s[0]]);
        assert(Seq::empty() + letters(s.drop_first()) =~= letters(s.drop_first()));
        assert(text::strip_front(s, k) == text::strip_front(s.drop_first(), k));
    } else {
        lemma_strip_back_letters(s, k);
    }
}

proof fn lemma_strip_back_letters(s: Seq<char>, k: CharClass)
    requires
        forall|c: char| #[trigger] k.holds(c) ==> !is_letter(c),
    ensures
        letters(text::strip_back(s, k)) == letters(s),
    decreases s.len(),
{
    if s.len() > 0 && k.holds(s.last()) {
        lemma_strip_back_letters(s.drop_last(), k);
    }
}

/// The name that a title of at most eighty characters gives has the letters and digits of the
/// title, all of them and in their order; and where the title has none that could stay, the
/// document is untitled.
pub proof fn law_name_has_the_letters_of_its_title(title: Seq<char>)
    requires
        title.len() <= 80,
    ensures
        letters(title).len() > 0 ==> letters(render::slug_of(title)) == letters(title),
        (forall|i: int| 0 <= i < title.len() ==> !stays(#[trigger] title[i]))
            ==> render::slug_of(title) == "untitled"@,
{
    let t = text::trimmed(title);
    text::lemma_strip_props(title, CharClass::White);
    let s = render::slug_from(Seq::empty(), t);
    let k = CharClass::Either('-', '.');
    let r = text::strip(s, k);
    assert(forall|c: char| #[trigger] CharClass::White.holds(c) ==> !is_letter(c));
    assert(forall|c: char| #[trigger] k.holds(c) ==> !is_letter(c));
    lemma_strip_letters(title, CharClass::White);
    lemma_slug_from_letters(Seq::empty(), t);
    assert(letters(Seq::<char>::empty()) + letters(t) =~= letters(t));
    lemma_strip_letters(s, k);
    if r.len() == 0 {
        assert(letters(r) =~= Seq::empty());
    }
    if forall|i: int| 0 <= i < title.len() ==> !stays(#[trigger] title[i]) {
        assert forall|i: int| 0 <= i < t.len() implies !stays(#[trigger] t[i]) by {
            assert(title.contains(t[i]));
            let j = choose|j: int| 0 <= j < title.len() && title[j] == t[i];
            assert(!stays(title[j]));
        }
        lemma_slug_from_nothing(Seq::empty(), t);
        assert(s =~= Seq::empty());
        assert(r =~= Seq::empty()) by {
            text::lemma_strip_props(s, k);
        }
    }
}

proof fn lemma_slug_from_nothing(out: Seq<char>, rest: Seq<char>)
    requires
        forall|i: int| 0 <= i < rest.len() ==> !stays(#[trigger] rest[i]),
        out.len() == 0,
    ensures
        render::slug_from(out, rest) == out,
    decreases rest.len(),
{
    if rest.len() > 0 {
        let f = rest.drop_first();
        assert(!stays(rest[0]));
        assert(forall|i: int| 0 <= i < f.len() ==> f[i] == rest[i + 1]);
        lemma_slug_from_nothing(out, f);
    }
}

/// A longer word is cut after eighty characters.
pub proof fn law_long_words_are_cut(s: Seq<char>)
    requires
        is_word(s),
        s.len() > 80,
        s[0] != '.',
        s[79] != '.',
    ensures
        render::slug_of(s) == s.take(80),
{
    assert(stays(s[0]) && stays(s[s.len() - 1]) && stays(s[79]));
    text::lemma_strip_id(s, CharClass::White);
    let a = s.take(80);
    let b = s.skip(80);
    assert(s =~= a + b);
    assert(forall|i: int| 0 <= i < a.len() ==> a[i] == s[i]);
    lemma_slug_from_concat(Seq::empty(), a, b);
    lemma_slug_from_word(Seq::empty(), a);
    assert(Seq::<char>::empty() + a =~= a);
    assert(render::slug_from(a, b) == a);
    text::lemma_strip_id(a, CharClass::Either('-', '.'));
}

// ── numbers in names ─────────────────────────────────────────────────────────

/// A document's number stands before the extension of a name, or at its end where there is none.
pub proof fn law_number_stands_before_the_extension(stem: Seq<char>, ext: Seq<char>, id: u64)
    requires
        forall|i: int| 0 <= i < ext.len() ==> #[trigger] ext[i] != '.',
    ensures
        render::suffixed(stem + seq!['.'] + ext, id) == stem + seq!['.'] + text::decimal(id as nat)
            + seq!['.'] + ext,
        render::suffixed(ext, id) == ext + seq!['.'] + text::decimal(id as nat),
{
    let k = CharClass::Is('.');
    let s = stem + seq!['.'] + ext;
    let at = stem.len() as int;
    assert forall|j: int| at < j < s.len() implies !k.holds(#[trigger] s[j]) by {
        assert(s[j] == ext[j - at - 1]);
    }
    text::lemma_rfind(s, k, at);
    text::lemma_rfind(ext, k, -1);
    reveal_strlit(".");
    assert("."@ =~= seq!['.']);
    assert(s.take(at) =~= stem);
    assert(s.skip(at + 1) =~= ext);
}

// ── URLs ─────────────────────────────────────────────────────────────────────

proof fn lemma_find_text_at(s: Seq<char>, p: Seq<char>, i: int)
    requires
        0 <= i <= s.len(),
        text::starts_with(s.skip(i), p),
        forall|j: int| 0 <= j < i ==> !text::starts_with(#[trigger] s.skip(j), p),
    ensures
        text::find_text(s, p) == Some(i),
    decreases i,
{
    assert(s.skip(0) =~= s);
    if i > 0 {
        let t = s.drop_first();
        assert(!text::starts_with(s.skip(0), p));
        assert forall|j: int| 0 <= j < i - 1 implies !text::starts_with(#[trigger] t.skip(j), p) by {
            assert(t.skip(j) =~= s.skip(j + 1));
        }
        assert(t.skip(i - 1) =~= s.skip(i));
        lemma_find_text_at(t, p, i - 1);
    }
}

/// Whether a text holds no character of some.
pub open spec fn free_of(s: Seq<char>, c: char) -> bool {
    forall|i: int| 0 <= i < s.len() ==> #[trigger] s[i] != c
}

proof fn lemma_after_scheme(scheme: Seq<char>, rest: Seq<char>)
    requires
        free_of(scheme, ':'),
    ensures
        render::after_scheme(scheme + "://"@ + rest) == Some(rest),
{
    let p = "://"@;
    let url = scheme + p + rest;
    let n = scheme.len() as int;
    reveal_strlit("://");
    assert(url.skip(n).take(3) =~= p);
    assert forall|j: int| 0 <= j < n implies !text::starts_with(#[trigger] url.skip(j), p) by {
        if text::starts_with(url.skip(j), p) {
            assert(url.skip(j).take(3)[0] == ':');
            assert(url[j] == scheme[j]);
        }
    }
    lemma_find_text_at(url, p, n);
    assert(url.skip(n + 3) =~= rest);
}

/// Whether a text is the end of a URL's path: nothing, a query or a fragment.
pub open spec fn ends_path(s: Seq<char>) -> bool {
    s.len() > 0 ==> s[0] == '?' || s[0] == '#'
}

/// Whether a text holds nothing that ends a path.
pub open spec fn in_path(s: Seq<char>) -> bool {
    free_of(s, '?') && free_of(s, '#')
}

/// A location names a file by the last part of its path, without its escapes, and without the
/// query and the fragment behind it. A path that ends with a slash names none.
pub proof fn law_location_names_a_file(
    scheme: Seq<char>,
    path: Seq<char>,
    name: Seq<char>,
    tail: Seq<char>,
)
    requires
        free_of(scheme, ':'),
        in_path(path),
        in_path(name),
        free_of(name, '/'),
        ends_path(tail),
    ensures
        name.len() > 0 ==> render::location_name(scheme + "://"@ + (path + seq!['/'] + name + tail))
            == Some(render::utf8_text(render::percent_decoded(encode_utf8(name)))),
        name.len() == 0 ==> render::location_name(
            scheme + "://"@ + (path + seq!['/'] + name + tail),
        ) is None,
{
    let rest = path + seq!['/'] + name + tail;
    let whole = path + seq!['/'] + name;
    lemma_after_scheme(scheme, rest);
    let k = CharClass::Either('?', '#');
    let n = whole.len() as int;
    assert forall|j: int| 0 <= j < n implies !k.holds(#[trigger] rest[j]) by {
        if j < path.len() {
            assert(rest[j] == path[j]);
        } else if j > path.len() {
            assert(rest[j] == name[j - path.len() - 1]);
        }
    }
    if tail.len() > 0 {
        assert(rest[n] == tail[0]);
    }
    text::lemma_find(rest, k, n);
    assert(rest.take(n) =~= whole);
    let slash = CharClass::Is('/');
    let at = path.len() as int;
    assert forall|j: int| at < j < whole.len() implies !slash.holds(#[trigger] whole[j]) by {
        assert(whole[j] == name[j - at - 1]);
    }
    text::lemma_rfind(whole, slash, at);
    assert(whole.skip(at + 1) =~= name);
}

/// A file whose name was written for a URL is found under that name.
pub proof fn law_location_reads_back(
    scheme: Seq<char>,
    path: Seq<char>,
    name: Seq<char>,
    tail: Seq<char>,
)
    requires
        free_of(scheme, ':'),
        in_path(path),
        name.len() > 0,
        ends_path(tail),
    ensures
        render::location_name(
            scheme + "://"@ + (path + seq!['/'] + crate::api::segment(name) + tail),
        ) == Some(name),
{
    let seg = crate::api::segment(name);
    crate::file_laws::law_segment_is_one(encode_utf8(name));
    crate::file_laws::law_escapes_read_back(name);
    assert(forall|i: int| 0 <= i < seg.len() ==> crate::file_laws::in_segment(#[trigger] seg[i]));
    if seg.len() == 0 {
        assert(encode_utf8(seg) =~= Seq::empty());
        assert(render::percent_decoded(Seq::<u8>::empty()) =~= Seq::empty());
        encode_utf8_valid_utf8(Seq::<char>::empty());
        encode_utf8_decode_utf8(Seq::<char>::empty());
        assert(render::utf8_text(Seq::<u8>::empty()) =~= Seq::<char>::empty());
    }
    law_location_names_a_file(scheme, path, seg, tail);
}

/// What is no URL names no file and no host.
pub proof fn law_no_url_names_nothing(s: Seq<char>)
    requires
        forall|i: int| 0 <= i < s.len() - 2 ==> !(#[trigger] s[i] == ':' && s[i + 1] == '/' && s[i
            + 2] == '/'),
    ensures
        render::location_name(s) is None,
        render::url_host(s) is None,
{
    reveal_strlit("://");
    match text::find_text(s, "://"@) {
        Some(i) => {
            text::lemma_find_text_props(s, "://"@);
            let m = s.skip(i).take(3);
            assert(m[0] == ':' && m[1] == '/' && m[2] == '/');
            assert(s[i] == ':' && s[i + 1] == '/' && s[i + 2] == '/');
        },
        None => {},
    }
}

/// The host of a URL is what stands between its scheme and its path, query or fragment.
pub proof fn law_host_of_a_url(scheme: Seq<char>, host: Seq<char>, tail: Seq<char>)
    requires
        free_of(scheme, ':'),
        in_path(host),
        free_of(host, '/'),
        tail.len() > 0 ==> tail[0] == '/' || tail[0] == '?' || tail[0] == '#',
    ensures
        host.len() > 0 ==> render::url_host(scheme + "://"@ + (host + tail)) == Some(host),
        host.len() == 0 ==> render::url_host(scheme + "://"@ + (host + tail)) is None,
{
    let rest = host + tail;
    lemma_after_scheme(scheme, rest);
    let k = CharClass::OneOf('/', '?', '#');
    let n = host.len() as int;
    assert forall|j: int| 0 <= j < n implies !k.holds(#[trigger] rest[j]) by {
        assert(rest[j] == host[j]);
    }
    if tail.len() > 0 {
        assert(rest[n] == tail[0]);
    }
    text::lemma_find(rest, k, n);
    assert(rest.take(n) =~= host);
}

/// An escape is a percent sign and two hexadecimal digits, in either case; it stands for the byte
/// that they write. Anything else stands for itself.
pub proof fn law_escapes(h: u8, l: u8, x: u8, y: u8, b: u8, rest: Seq<u8>)
    requires
        is_digit(x, h),
        is_digit(y, l),
    ensures
        render::percent_decoded(seq![37u8, x, y] + rest) == seq![(16 * h + l) as u8]
            + render::percent_decoded(rest),
        b != 37 ==> render::percent_decoded(seq![b] + rest) == seq![b] + render::percent_decoded(
            rest,
        ),
{
    let s = seq![37u8, x, y] + rest;
    assert(s[0] == 37 && s[1] == x && s[2] == y);
    assert(s.skip(3) =~= rest);
    assert(render::hex_digit(x) == Some(h));
    assert(render::hex_digit(y) == Some(l));
    let t = seq![b] + rest;
    assert(t.skip(1) =~= rest);
}

/// Whether a byte is the hexadecimal digit of a number.
pub open spec fn is_digit(b: u8, n: u8) -> bool {
    ||| n < 10 && b == '0' as int + n
    ||| 10 <= n < 16 && (b == 'a' as int + n - 10 || b == 'A' as int + n - 10)
}

// ── file names ───────────────────────────────────────────────────────────────

/// Whether a character cannot stand in a file name.
pub open spec fn breaks_names(c: char) -> bool {
    c == '/' || c == '\\' || c == '\0'
}

proof fn lemma_without_separators_concat(a: Seq<char>, b: Seq<char>)
    ensures
        render::without_separators(a + b) == render::without_separators(a)
            + render::without_separators(b),
    decreases b.len(),
{
    if b.len() == 0 {
        assert(a + b =~= a);
        assert(render::without_separators(a) + render::without_separators(b)
            =~= render::without_separators(a));
    } else {
        lemma_without_separators_concat(a, b.drop_last());
        assert((a + b).drop_last() =~= a + b.drop_last());
        assert((a + b).last() == b.last());
        let x = render::without_separators(a);
        let y = render::without_separators(b.drop_last());
        assert(x + y.push(b.last()) =~= (x + y).push(b.last()));
    }
}

proof fn lemma_without_separators_id(s: Seq<char>)
    requires
        forall|i: int| 0 <= i < s.len() ==> !breaks_names(#[trigger] s[i]),
    ensures
        render::without_separators(s) == s,
    decreases s.len(),
{
    if s.len() > 0 {
        let f = s.drop_last();
        assert(!breaks_names(s[s.len() - 1]));
        assert(forall|i: int| 0 <= i < f.len() ==> f[i] == s[i]);
        lemma_without_separators_id(f);
        assert(f.push(s.last()) =~= s);
    }
}

/// A file name that can stand as it is does so: spaces and all scripts stay.
pub proof fn law_good_file_names_stay(name: Seq<char>)
    requires
        name.len() > 0,
        forall|i: int| 0 <= i < name.len() ==> !breaks_names(#[trigger] name[i]),
        !text::is_white_space(name[0]) && !text::is_white_space(name.last()),
        name[0] != '.' && name.last() != '.',
    ensures
        render::safe_filename(name) == name,
{
    lemma_without_separators_id(name);
    text::lemma_strip_id(name, CharClass::White);
    text::lemma_strip_id(name, CharClass::Is('.'));
}

/// A character that cannot stand in a file name goes, wherever it stands.
pub proof fn law_separators_go(a: Seq<char>, c: char, b: Seq<char>)
    requires
        breaks_names(c),
    ensures
        render::safe_filename(a + seq![c] + b) == render::safe_filename(a + b),
{
    lemma_without_separators_concat(a + seq![c], b);
    lemma_without_separators_concat(a, seq![c]);
    lemma_without_separators_concat(a, b);
    assert(seq![c].drop_last() =~= Seq::empty());
    assert(render::without_separators(Seq::empty()) =~= Seq::empty());
    assert(render::without_separators(seq![c]) =~= Seq::empty());
    assert(render::without_separators(a) + Seq::<char>::empty() =~= render::without_separators(a));
}

/// White space at the ends of a file name goes, and so do the dots that are there then.
pub proof fn law_ends_of_a_file_name_go(
    a: Seq<char>,
    dots: Seq<char>,
    name: Seq<char>,
    more: Seq<char>,
    b: Seq<char>,
)
    requires
        blank(a),
        blank(b),
        forall|i: int| 0 <= i < dots.len() ==> #[trigger] dots[i] == '.',
        forall|i: int| 0 <= i < more.len() ==> #[trigger] more[i] == '.',
        name.len() > 0,
        forall|i: int| 0 <= i < name.len() ==> !breaks_names(#[trigger] name[i]),
        !text::is_white_space(name[0]) && !text::is_white_space(name.last()),
        name[0] != '.' && name.last() != '.',
    ensures
        render::safe_filename(a + (dots + name + more) + b) == name,
{
    let core = dots + name + more;
    let all = a + core + b;
    assert forall|i: int| 0 <= i < all.len() implies !breaks_names(#[trigger] all[i]) by {
        if i < a.len() {
            assert(all[i] == a[i]);
        } else if i < a.len() + dots.len() {
            assert(all[i] == dots[i - a.len()]);
        } else if i < a.len() + dots.len() + name.len() {
            assert(all[i] == name[i - a.len() - dots.len()]);
        } else if i < a.len() + core.len() {
            assert(all[i] == more[i - a.len() - dots.len() - name.len()]);
        } else {
            assert(all[i] == b[i - a.len() - core.len()]);
        }
    }
    lemma_without_separators_id(all);
    assert(core[0] == (if dots.len() > 0 {
        dots[0]
    } else {
        name[0]
    }));
    assert(core.last() == (if more.len() > 0 {
        more[more.len() - 1]
    } else {
        name.last()
    }));
    content_laws::law_trim(a, core, b);
    lemma_strip_dots(dots, name, more);
}

proof fn lemma_strip_dots(dots: Seq<char>, name: Seq<char>, more: Seq<char>)
    requires
        forall|i: int| 0 <= i < dots.len() ==> #[trigger] dots[i] == '.',
        forall|i: int| 0 <= i < more.len() ==> #[trigger] more[i] == '.',
        name.len() > 0,
        name[0] != '.' && name.last() != '.',
    ensures
        text::strip(dots + name + more, CharClass::Is('.')) == name,
    decreases dots.len() + more.len(),
{
    let s = dots + name + more;
    let k = CharClass::Is('.');
    if dots.len() > 0 {
        assert(s[0] == dots[0]);
        let f = dots.drop_first();
        assert(forall|i: int| 0 <= i < f.len() ==> f[i] == dots[i + 1]);
        assert(s.drop_first() =~= f + name + more);
        lemma_strip_dots(f, name, more);
        assert(text::strip_front(s, k) == text::strip_front(s.drop_first(), k));
    } else if more.len() > 0 {
        assert(s[0] == name[0]);
        assert(s.last() == more[more.len() - 1]);
        let f = more.drop_last();
        assert(s.drop_last() =~= dots + name + f);
        assert(s.drop_last()[0] == name[0]);
        lemma_strip_dots(dots, name, f);
        assert(text::strip_front(s, k) == s);
        assert(text::strip_front(s.drop_last(), k) == s.drop_last());
    } else {
        assert(s =~= name);
        text::lemma_strip_id(name, k);
    }
}

/// A file name of which nothing is left is replaced.
pub proof fn law_empty_file_names_are_replaced(name: Seq<char>)
    requires
        forall|i: int| 0 <= i < name.len() ==> breaks_names(#[trigger] name[i]),
    ensures
        render::safe_filename(name) == "unnamed"@,
    decreases name.len(),
{
    if name.len() > 0 {
        let f = name.drop_last();
        assert(breaks_names(name[name.len() - 1]));
        assert(forall|i: int| 0 <= i < f.len() ==> f[i] == name[i]);
        law_empty_file_names_are_replaced(f);
    } else {
        text::lemma_strip_id(name, CharClass::White);
        assert(render::without_separators(name) =~= Seq::empty());
        text::lemma_strip_id(Seq::<char>::empty(), CharClass::White);
        text::lemma_strip_id(Seq::<char>::empty(), CharClass::Is('.'));
    }
}

} // verus!
