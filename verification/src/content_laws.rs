//! What the file of a document is, by what the document says.

use crate::api::DocumentView;
use crate::json;
use crate::json::JsonView;
use crate::render;
use crate::render::RenderedContent;
use crate::text;
use crate::text::CharClass;
use vstd::prelude::*;
use vstd::string::*;
use vstd::utf8::*;

verus! {

// ── texts ────────────────────────────────────────────────────────────────────

/// White space is what Unicode calls so.
pub proof fn law_white_space(c: char)
    ensures
        text::is_white_space(c) <==> {
            let n = c as u32;
            ||| 9 <= n <= 13
            ||| n == 32 || n == 0x85 || n == 0xa0 || n == 0x1680
            ||| 0x2000 <= n <= 0x200a
            ||| n == 0x2028 || n == 0x2029 || n == 0x202f || n == 0x205f || n == 0x3000
        },
{
}

/// Whether a text holds nothing but white space.
pub open spec fn blank(s: Seq<char>) -> bool {
    forall|i: int| 0 <= i < s.len() ==> text::is_white_space(#[trigger] s[i])
}

/// Trimming a text takes the white space at its ends away, and nothing else.
pub proof fn law_trim(a: Seq<char>, s: Seq<char>, b: Seq<char>)
    requires
        blank(a),
        blank(b),
        s.len() > 0 ==> !text::is_white_space(s[0]) && !text::is_white_space(s.last()),
    ensures
        text::trimmed(a + s + b) == s,
{
    lemma_trim_around(a, s, b);
}

proof fn lemma_trim_around(a: Seq<char>, s: Seq<char>, b: Seq<char>)
    requires
        blank(a),
        blank(b),
        s.len() > 0 ==> !text::is_white_space(s[0]) && !text::is_white_space(s.last()),
    ensures
        text::trimmed(a + s + b) == s,
    decreases a.len() + b.len(),
{
    let t = a + s + b;
    let k = CharClass::White;
    if a.len() > 0 {
        assert(t[0] == a[0]);
        assert(t.drop_first() =~= a.drop_first() + s + b);
        assert(text::strip_front(t, k) == text::strip_front(t.drop_first(), k));
        assert(blank(a.drop_first())) by {
            assert(forall|i: int| 0 <= i < a.len() - 1 ==> a.drop_first()[i] == a[i + 1]);
        }
        lemma_trim_around(a.drop_first(), s, b);
    } else if b.len() > 0 {
        if s.len() == 0 {
            assert(t =~= b);
            assert(t.drop_first() =~= a + s + b.drop_first());
            assert(text::strip_front(t, k) == text::strip_front(t.drop_first(), k));
            assert(blank(b.drop_first())) by {
                assert(forall|i: int| 0 <= i < b.len() - 1 ==> b.drop_first()[i] == b[i + 1]);
            }
            lemma_trim_around(a, s, b.drop_first());
        } else {
            assert(t[0] == s[0]);
            assert(text::strip_front(t, k) == t);
            assert(t.last() == b.last());
            assert(t.drop_last() =~= a + s + b.drop_last());
            assert(t.drop_last()[0] == s[0]);
            assert(text::strip_front(t.drop_last(), k) == t.drop_last());
            assert(text::strip_back(t, k) == text::strip_back(t.drop_last(), k));
            assert(blank(b.drop_last()));
            lemma_trim_around(a, s, b.drop_last());
        }
    } else {
        assert(t =~= s);
        text::lemma_strip_id(s, k);
    }
}

/// A text is blank exactly where nothing is left of it.
pub proof fn lemma_blank(s: Seq<char>)
    ensures
        blank(s) <==> text::trimmed(s).len() == 0,
{
    if blank(s) {
        lemma_trim_around(s, Seq::empty(), Seq::empty());
        assert(s + Seq::<char>::empty() + Seq::<char>::empty() =~= s);
    } else {
        let i = choose|i: int| 0 <= i < s.len() && !text::is_white_space(#[trigger] s[i]);
        lemma_trim_keeps(s, i);
    }
}

proof fn lemma_trim_keeps(s: Seq<char>, i: int)
    requires
        0 <= i < s.len(),
        !text::is_white_space(s[i]),
    ensures
        text::trimmed(s).len() > 0,
    decreases s.len(),
{
    let k = CharClass::White;
    if k.holds(s[0]) {
        assert(s.drop_first()[i - 1] == s[i]);
        lemma_trim_keeps(s.drop_first(), i - 1);
        assert(text::strip_front(s, k) == text::strip_front(s.drop_first(), k));
    } else {
        lemma_strip_back_keeps(s, 0);
    }
}

proof fn lemma_strip_back_keeps(s: Seq<char>, i: int)
    requires
        0 <= i < s.len(),
        !text::is_white_space(s[i]),
    ensures
        text::strip_back(s, CharClass::White).len() > 0,
    decreases s.len(),
{
    if text::is_white_space(s.last()) {
        assert(s.drop_last()[i] == s[i]);
        lemma_strip_back_keeps(s.drop_last(), i);
    }
}

/// The number that decimal digits stand for.
pub open spec fn number_of(s: Seq<char>) -> int
    decreases s.len(),
{
    if s.len() == 0 {
        0
    } else {
        10 * number_of(s.drop_last()) + (s.last() as int - '0' as int)
    }
}

/// A number is written in decimal digits that stand for it, with no zero in front.
pub proof fn law_decimal(n: nat)
    ensures
        number_of(text::decimal(n)) == n,
        text::decimal(n).len() > 0,
        forall|i: int| 0 <= i < text::decimal(n).len() ==> '0' <= #[trigger] text::decimal(n)[i]
            <= '9',
        n > 0 ==> text::decimal(n)[0] != '0',
    decreases n,
{
    let d = text::decimal(n);
    if n < 10 {
        assert(d.drop_last() =~= Seq::empty());
        assert(number_of(d.drop_last()) == 0);
    } else {
        law_decimal(n / 10);
        let f = text::decimal(n / 10);
        assert(d.drop_last() =~= f);
        assert(d[0] == f[0]);
        assert forall|i: int| 0 <= i < d.len() implies '0' <= #[trigger] d[i] <= '9' by {
            if i < f.len() {
                assert(d[i] == f[i]);
            }
        }
    }
}

// ── fields ───────────────────────────────────────────────────────────────────

/// Whether a document has a text under a key that is not blank.
pub open spec fn has(data: JsonView, key: Seq<char>, s: Seq<char>) -> bool {
    data.says(key, s) && !blank(s)
}

/// Whether a document has no text under a key, or a blank one.
pub open spec fn lacks(data: JsonView, key: Seq<char>) -> bool {
    forall|s: Seq<char>| !#[trigger] has(data, key, s)
}

/// A field with one key is what the document says there.
pub proof fn lemma_field(data: JsonView, key: Seq<char>)
    ensures
        (match render::field(data, seq![key]) {
            Some(s) => has(data, key, s),
            None => lacks(data, key),
        }),
        forall|s: Seq<char>| #[trigger]
            has(data, key, s) ==> render::field(data, seq![key]) == Some(s),
{
    let keys = seq![key];
    assert(keys[0] == key);
    assert(keys.drop_first() =~= Seq::empty());
    assert(render::first_text(data, keys.drop_first()) is None);
    assert forall|s: Seq<char>| #[trigger] has(data, key, s) implies render::field(data, keys)
        == Some(s) by {
        lemma_blank(s);
        assert(data.member_text(key) == Some(s));
    }
    match data.member_text(key) {
        Some(s) => {
            lemma_blank(s);
            assert(data.says(key, s));
        },
        None => {
            assert(data.says_nothing(key));
        },
    }
}

// ── directories ──────────────────────────────────────────────────────────────

/// Each schema has its directory, and what has none of its own stands with the rest.
pub proof fn law_directories(schema: Seq<char>)
    ensures
        schema == "data/abstraction/tab"@ ==> render::schema_dir(schema) == "Tabs"@,
        schema == "data/abstraction/link"@ ==> render::schema_dir(schema) == "Links"@,
        schema == "data/abstraction/note"@ ==> render::schema_dir(schema) == "Notes"@,
        schema == "data/abstraction/todo"@ ==> render::schema_dir(schema) == "Todos"@,
        schema == "data/abstraction/file"@ ==> render::schema_dir(schema) == "Files"@,
        schema == "data/abstraction/email"@ ==> render::schema_dir(schema) == "Emails"@,
        schema != "data/abstraction/tab"@ && schema != "data/abstraction/link"@ && schema
            != "data/abstraction/note"@ && schema != "data/abstraction/todo"@ && schema
            != "data/abstraction/file"@ && schema != "data/abstraction/email"@
            ==> render::schema_dir(schema) == "Other"@,
{
    lemma_schemas_differ();
}

proof fn lemma_schemas_differ()
    ensures
        "data/abstraction/tab"@.len() == 20,
        "data/abstraction/link"@.len() == 21,
        "data/abstraction/note"@.len() == 21,
        "data/abstraction/todo"@.len() == 21,
        "data/abstraction/file"@.len() == 21,
        "data/abstraction/email"@.len() == 22,
        "data/abstraction/link"@[17] == 'l',
        "data/abstraction/note"@[17] == 'n',
        "data/abstraction/todo"@[17] == 't',
        "data/abstraction/file"@[17] == 'f',
{
    reveal_strlit("data/abstraction/tab");
    reveal_strlit("data/abstraction/link");
    reveal_strlit("data/abstraction/note");
    reveal_strlit("data/abstraction/todo");
    reveal_strlit("data/abstraction/file");
    reveal_strlit("data/abstraction/email");
}

// ── shortcuts ────────────────────────────────────────────────────────────────

/// Whether a schema is that of tabs or of links.
pub open spec fn is_shortcut(schema: Seq<char>) -> bool {
    schema == "data/abstraction/tab"@ || schema == "data/abstraction/link"@
}

/// A tab or a link is a shortcut to the whole of its URL, as it stands, and to a blank page where
/// it has none.
pub proof fn law_shortcut_leads_to_its_url(doc: DocumentView)
    requires
        is_shortcut(doc.schema),
    ensures
        forall|url: Seq<char>| #[trigger]
            has(doc.data, "url"@, url) ==> render::rendered_content(doc) == RenderedContent::Inline(
                encode_utf8("[InternetShortcut]\r\nURL="@ + url + "\r\n"@),
            ),
        lacks(doc.data, "url"@) ==> render::rendered_content(doc) == RenderedContent::Inline(
            encode_utf8("[InternetShortcut]\r\nURL="@ + "about:blank"@ + "\r\n"@),
        ),
{
    lemma_schemas_differ();
    lemma_field(doc.data, "url"@);
}

/// Shortcuts to different URLs are different files.
pub proof fn law_shortcuts_differ(a: DocumentView, b: DocumentView, u: Seq<char>, v: Seq<char>)
    requires
        is_shortcut(a.schema),
        is_shortcut(b.schema),
        has(a.data, "url"@, u),
        has(b.data, "url"@, v),
    ensures
        render::rendered_content(a) == render::rendered_content(b) ==> u == v,
{
    law_shortcut_leads_to_its_url(a);
    law_shortcut_leads_to_its_url(b);
    let front = "[InternetShortcut]\r\nURL="@;
    let back = "\r\n"@;
    let s = front + u + back;
    let t = front + v + back;
    if encode_utf8(s) == encode_utf8(t) {
        encode_utf8_decode_utf8(s);
        encode_utf8_decode_utf8(t);
        assert(s == t);
        assert(u =~= s.subrange(front.len() as int, s.len() - back.len()));
        assert(v =~= t.subrange(front.len() as int, t.len() - back.len()));
    }
}

/// A tab or a link is named by its title, or else by the host that it leads to, or else by its
/// number.
pub proof fn law_shortcut_name(doc: DocumentView)
    requires
        is_shortcut(doc.schema),
    ensures
        forall|title: Seq<char>| #[trigger]
            has(doc.data, "title"@, title) ==> render::rendered_name(doc) == render::slug_of(title)
                + ".url"@,
        forall|url: Seq<char>| #[trigger]
            has(doc.data, "url"@, url) && lacks(doc.data, "title"@) ==> (match render::url_host(
                url,
            ) {
                Some(host) => render::rendered_name(doc) == render::slug_of(host) + ".url"@,
                None => render::rendered_name(doc) == render::slug_of(
                    "tab-"@ + text::decimal(doc.id as nat),
                ) + ".url"@,
            }),
        lacks(doc.data, "title"@) && lacks(doc.data, "url"@) ==> render::rendered_name(doc)
            == render::slug_of("tab-"@ + text::decimal(doc.id as nat)) + ".url"@,
{
    lemma_schemas_differ();
    lemma_field(doc.data, "url"@);
    lemma_field(doc.data, "title"@);
    lemma_numbered("tab"@, "tab-"@, doc.id);
    lemma_blank_page();
    reveal_strlit("tab");
    reveal_strlit("tab-");
    reveal_strlit("-");
    assert("tab"@ + "-"@ =~= "tab-"@);
}

proof fn lemma_numbered(word: Seq<char>, dashed: Seq<char>, id: u64)
    ensures
        word + "-"@ == dashed ==> render::numbered(word, id) == dashed + text::decimal(id as nat),
{
}

proof fn lemma_blank_page()
    ensures
        render::url_host("about:blank"@) is None,
{
    let s = "about:blank"@;
    reveal_strlit("about:blank");
    reveal_strlit("://");
    match text::find_text(s, "://"@) {
        Some(i) => {
            text::lemma_find_text_props(s, "://"@);
            let m = s.skip(i).take(3);
            assert(m[0] == ':' && m[1] == '/');
            assert(s[i + 1] == '/');
        },
        None => {},
    }
}

// ── notes and todos ──────────────────────────────────────────────────────────

/// A note is its content, ended by a line feed, and an empty file where it has none.
pub proof fn law_note_shows_its_content(doc: DocumentView)
    requires
        doc.schema == "data/abstraction/note"@,
    ensures
        forall|c: Seq<char>| #[trigger]
            has(doc.data, "content"@, c) ==> render::rendered_content(doc)
                == RenderedContent::Inline(
                encode_utf8(
                    if c.last() == '\n' {
                        c
                    } else {
                        c + seq!['\n']
                    },
                ),
            ),
        lacks(doc.data, "content"@) ==> render::rendered_content(doc) == RenderedContent::Inline(
            Seq::empty(),
        ),
{
    lemma_schemas_differ();
    lemma_field(doc.data, "content"@);
    assert forall|c: Seq<char>| #[trigger]
        has(doc.data, "content"@, c) implies render::rendered_content(doc)
        == RenderedContent::Inline(
        encode_utf8(
            if c.last() == '\n' {
                c
            } else {
                c + seq!['\n']
            },
        ),
    ) by {
        assert(c.len() > 0);
        assert(c.push('\n') =~= c + seq!['\n']);
        lemma_dirs();
    }
    lemma_dirs();
    assert(encode_utf8(Seq::<char>::empty()) =~= Seq::empty());
}

proof fn lemma_dirs()
    ensures
        "Tabs"@ != "Notes"@,
        "Links"@ != "Notes"@,
        "Tabs"@ != "Todos"@,
        "Links"@ != "Todos"@,
        "Notes"@ != "Todos"@,
        "Tabs"@ != "Files"@,
        "Links"@ != "Files"@,
        "Notes"@ != "Files"@,
        "Todos"@ != "Files"@,
        "Tabs"@ != "Emails"@,
        "Links"@ != "Emails"@,
        "Notes"@ != "Emails"@,
        "Todos"@ != "Emails"@,
        "Files"@ != "Emails"@,
        "Tabs"@ != "Other"@,
        "Links"@ != "Other"@,
        "Notes"@ != "Other"@,
        "Todos"@ != "Other"@,
        "Files"@ != "Other"@,
{
    reveal_strlit("Tabs");
    reveal_strlit("Links");
    reveal_strlit("Notes");
    reveal_strlit("Todos");
    reveal_strlit("Files");
    reveal_strlit("Emails");
    reveal_strlit("Other");
    assert("Tabs"@[0] == 'T' && "Todos"@[0] == 'T' && "Tabs"@[1] == 'a' && "Todos"@[1] == 'o');
    assert("Links"@[0] == 'L' && "Notes"@[0] == 'N' && "Files"@[0] == 'F');
    assert("Emails"@[0] == 'E' && "Other"@[0] == 'O');
}

/// A note or a todo is named by its title, or else by its number.
pub proof fn law_note_and_todo_names(doc: DocumentView)
    ensures
        doc.schema == "data/abstraction/note"@ || doc.schema == "data/abstraction/todo"@ ==> (
        forall|title: Seq<char>| #[trigger]
            has(doc.data, "title"@, title) ==> render::rendered_name(doc) == render::slug_of(title)
                + ".md"@),
        doc.schema == "data/abstraction/note"@ && lacks(doc.data, "title"@)
            ==> render::rendered_name(doc) == render::slug_of(
            "note-"@ + text::decimal(doc.id as nat),
        ) + ".md"@,
        doc.schema == "data/abstraction/todo"@ && lacks(doc.data, "title"@)
            ==> render::rendered_name(doc) == render::slug_of(
            "todo-"@ + text::decimal(doc.id as nat),
        ) + ".md"@,
{
    lemma_schemas_differ();
    lemma_dirs();
    lemma_field(doc.data, "title"@);
    reveal_strlit("note");
    reveal_strlit("note-");
    reveal_strlit("todo");
    reveal_strlit("todo-");
    reveal_strlit("-");
    assert("note"@ + "-"@ =~= "note-"@);
    assert("todo"@ + "-"@ =~= "todo-"@);
}

/// Whether a document says that it is done: under `completed`, or under `done` where it says
/// nothing at all under `completed`.
pub open spec fn is_done(data: JsonView) -> bool {
    data is Object && {
        let m = data->Object_0;
        ||| m.contains_key("completed"@) && m["completed"@] == JsonView::Bool(true)
        ||| !m.contains_key("completed"@) && m.contains_key("done"@) && m["done"@]
            == JsonView::Bool(true)
    }
}

/// The title that a todo's file shows: its own, or else its number.
pub open spec fn is_todo_title(doc: DocumentView, title: Seq<char>) -> bool {
    has(doc.data, "title"@, title) || (lacks(doc.data, "title"@) && title == "todo-"@
        + text::decimal(doc.id as nat))
}

/// A todo is a line with a box that is checked where it is done, its title and, where it has one,
/// its description below an empty line.
pub proof fn law_todo_shows_what_it_says(doc: DocumentView, title: Seq<char>)
    requires
        doc.schema == "data/abstraction/todo"@,
        is_todo_title(doc, title),
    ensures
        ({
            let line = (if is_done(doc.data) {
                "- [x] "@
            } else {
                "- [ ] "@
            }) + title + "\n"@;
            &&& lacks(doc.data, "description"@) ==> render::rendered_content(doc)
                == RenderedContent::Inline(encode_utf8(line))
            &&& forall|d: Seq<char>| #[trigger]
                has(doc.data, "description"@, d) ==> render::rendered_content(doc)
                    == RenderedContent::Inline(encode_utf8(line + "\n"@ + d + "\n"@))
        }),
{
    lemma_schemas_differ();
    lemma_dirs();
    lemma_field(doc.data, "title"@);
    lemma_field(doc.data, "description"@);
    reveal_strlit("- [x] ");
    reveal_strlit("- [ ] ");
    reveal_strlit("- [");
    reveal_strlit("x");
    reveal_strlit(" ");
    reveal_strlit("] ");
    reveal_strlit("todo");
    reveal_strlit("todo-");
    reveal_strlit("-");
    assert("todo"@ + "-"@ =~= "todo-"@);
    assert("- ["@ + "x"@ + "] "@ =~= "- [x] "@);
    assert("- ["@ + " "@ + "] "@ =~= "- [ ] "@);
    assert(render::todo_done(doc.data) == is_done(doc.data));
    assert(render::own_title(doc, "todo"@) == title);
}

// ── files and the rest ───────────────────────────────────────────────────────

/// A file whose size is known is its blob, under the name that its locations give; one whose size
/// is not known is its document, in JSON.
pub proof fn law_file_shows_its_blob(doc: DocumentView)
    requires
        doc.schema == "data/abstraction/file"@,
    ensures
        doc.size is Some ==> render::rendered_content(doc) == RenderedContent::Remote(doc.size->0)
            && render::rendered_name(doc) == render::safe_filename(
            render::file_name(doc.locations, doc.id),
        ),
        doc.size is None ==> render::rendered_content(doc) == RenderedContent::Inline(
            json::pretty_bytes(doc.data),
        ) && render::rendered_name(doc) == render::safe_filename(
            render::file_name(doc.locations, doc.id),
        ) + ".json"@,
{
    lemma_schemas_differ();
    lemma_dirs();
}

/// A file is named by the first of its locations that names it, whatever the others are, and by
/// its number where none does.
pub proof fn law_file_is_named_by_its_first_name(locations: Seq<Seq<char>>, id: u64, i: int)
    requires
        0 <= i <= locations.len(),
        forall|j: int| 0 <= j < i ==> render::location_name(#[trigger] locations[j]) is None,
        i < locations.len() ==> render::location_name(locations[i]) is Some,
    ensures
        i < locations.len() ==> render::file_name(locations, id) == render::location_name(
            locations[i],
        )->0,
        i == locations.len() ==> render::file_name(locations, id) == "file-"@ + text::decimal(
            id as nat,
        ),
    decreases locations.len(),
{
    reveal_strlit("file");
    reveal_strlit("file-");
    reveal_strlit("-");
    assert("file"@ + "-"@ =~= "file-"@);
    if i > 0 {
        assert(render::location_name(locations[0]) is None);
        let f = locations.drop_first();
        assert forall|j: int| 0 <= j < i - 1 implies render::location_name(
            #[trigger] f[j],
        ) is None by {
            assert(f[j] == locations[j + 1]);
        }
        law_file_is_named_by_its_first_name(f, id, i - 1);
    }
}

/// The key that names a document of no kind of its own: the first of four that has a text.
pub open spec fn is_naming_key(data: JsonView, key: Seq<char>) -> bool {
    ||| key == "title"@
    ||| key == "name"@ && data.says_nothing("title"@)
    ||| key == "subject"@ && data.says_nothing("title"@) && data.says_nothing("name"@)
    ||| key == "filename"@ && data.says_nothing("title"@) && data.says_nothing("name"@)
        && data.says_nothing("subject"@)
}

/// Any other document is shown in JSON, named by its title, name, subject or file name.
pub proof fn law_other_documents_are_json(doc: DocumentView)
    requires
        !is_shortcut(doc.schema),
        doc.schema != "data/abstraction/note"@,
        doc.schema != "data/abstraction/todo"@,
        doc.schema != "data/abstraction/file"@,
    ensures
        render::rendered_content(doc) == RenderedContent::Inline(json::pretty_bytes(doc.data)),
        forall|key: Seq<char>, s: Seq<char>|
            is_naming_key(doc.data, key) && #[trigger] has(doc.data, key, s)
                ==> render::rendered_name(doc) == render::slug_of(s) + ".json"@,
        (doc.data.says_nothing("title"@) && doc.data.says_nothing("name"@)
            && doc.data.says_nothing("subject"@) && doc.data.says_nothing("filename"@))
            ==> render::rendered_name(doc) == render::slug_of(
            render::schema_tail(doc.schema) + "-"@ + text::decimal(doc.id as nat),
        ) + ".json"@,
{
    lemma_schemas_differ();
    lemma_dirs();
    law_directories(doc.schema);
    let d = doc.data;
    let k0 = render::json_title_keys();
    let k1 = seq!["name"@, "subject"@, "filename"@];
    let k2 = seq!["subject"@, "filename"@];
    let k3 = seq!["filename"@];
    assert(k0.drop_first() =~= k1);
    assert(k1.drop_first() =~= k2);
    assert(k2.drop_first() =~= k3);
    assert(k3.drop_first() =~= Seq::empty());
    assert(k0[0] == "title"@ && k1[0] == "name"@ && k2[0] == "subject"@ && k3[0] == "filename"@);
    lemma_silent(d, "title"@);
    lemma_silent(d, "name"@);
    lemma_silent(d, "subject"@);
    lemma_silent(d, "filename"@);
    assert(render::first_text(d, Seq::empty()) is None);
    assert(render::first_text(d, k3) == d.member_text("filename"@));
    assert(d.says_nothing("subject"@) ==> render::first_text(d, k2) == render::first_text(d, k3));
    assert(d.says_nothing("name"@) ==> render::first_text(d, k1) == render::first_text(d, k2));
    assert(d.says_nothing("title"@) ==> render::first_text(d, k0) == render::first_text(d, k1));
    assert forall|key: Seq<char>, s: Seq<char>|
        is_naming_key(d, key) && #[trigger] has(d, key, s) implies render::rendered_name(doc)
        == render::slug_of(s) + ".json"@ by {
        lemma_blank(s);
        assert(d.member_text(key) == Some(s));
        assert(render::first_text(d, k0) == Some(s));
    }
}

proof fn lemma_silent(d: JsonView, key: Seq<char>)
    ensures
        d.says_nothing(key) <==> d.member_text(key) is None,
{
    match d.member_text(key) {
        Some(s) => {
            assert(d.says(key, s));
        },
        None => {},
    }
}

/// The last part of a path is what stands behind its last slash.
pub proof fn law_schema_tail(front: Seq<char>, tail: Seq<char>)
    requires
        forall|i: int| 0 <= i < tail.len() ==> #[trigger] tail[i] != '/',
    ensures
        render::schema_tail(front + seq!['/'] + tail) == tail,
        render::schema_tail(tail) == tail,
{
    let k = CharClass::Is('/');
    let s = front + seq!['/'] + tail;
    let at = front.len() as int;
    assert forall|j: int| at < j < s.len() implies !k.holds(#[trigger] s[j]) by {
        assert(s[j] == tail[j - at - 1]);
    }
    text::lemma_rfind(s, k, at);
    assert(s.skip(at + 1) =~= tail);
    text::lemma_rfind(tail, k, -1);
    assert(tail.skip(0) =~= tail);
}

/// In a tree, a document stands under the file name that it was saved with, and else under the
/// name that it has in a context.
pub proof fn law_tree_name(doc: DocumentView)
    ensures
        forall|n: Seq<char>| #[trigger]
            has(doc.data, "filename"@, n) ==> render::flat_name(doc) == render::safe_filename(
                text::trimmed(n),
            ),
        lacks(doc.data, "filename"@) ==> render::flat_name(doc) == render::rendered_name(doc),
{
    lemma_silent(doc.data, "filename"@);
    assert forall|n: Seq<char>| #[trigger] has(doc.data, "filename"@, n) implies render::flat_name(
        doc,
    ) == render::safe_filename(text::trimmed(n)) by {
        lemma_blank(n);
        assert(doc.data.member_text("filename"@) == Some(n));
    }
    match doc.data.member_text("filename"@) {
        Some(n) => {
            lemma_blank(n);
            assert(doc.data.says("filename"@, n));
            assert(!blank(n) ==> has(doc.data, "filename"@, n));
        },
        None => {},
    }
}

} // verus!
