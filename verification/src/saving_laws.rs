//! What becomes of a document when its file is saved.

use crate::api::DocumentView;
use crate::content_laws;
use crate::content_laws::blank;
use crate::file_laws;
use crate::file_laws::{is_trim, plain_lines};
use crate::json;
use crate::json::JsonView;
use crate::markdown;
use crate::markdown::TodoView;
use crate::render;
use crate::render::RenderedContent;
use crate::text;
use crate::text::CharClass;
use crate::writes;
use vstd::prelude::*;
use vstd::string::*;
use vstd::utf8::*;

verus! {

// ── todos ────────────────────────────────────────────────────────────────────

/// The file of a todo: a line with a box, and the description below an empty line.
pub open spec fn todo_file(title: Seq<char>, done: bool, description: Option<Seq<char>>) -> Seq<
    char,
> {
    let line = (if done {
        "- [x] "@
    } else {
        "- [ ] "@
    }) + title + seq!['\n'];
    if description is Some {
        line + seq!['\n'] + description->0 + seq!['\n']
    } else {
        line
    }
}

/// Whether a title and a description can stand in a file.
pub open spec fn fits_file(title: Seq<char>, description: Option<Seq<char>>) -> bool {
    &&& is_trim(title)
    &&& forall|i: int| 0 <= i < title.len() ==> #[trigger] title[i] != '\n'
    &&& description is Some ==> is_trim(description->0) && plain_lines(description->0)
}

proof fn lemma_todo_file(title: Seq<char>, done: bool, description: Option<Seq<char>>)
    ensures
        render::todo_text(title, done, description) == todo_file(title, done, description),
{
    reveal_strlit("- [x] ");
    reveal_strlit("- [ ] ");
    reveal_strlit("- [");
    reveal_strlit("x");
    reveal_strlit(" ");
    reveal_strlit("] ");
    reveal_strlit("\n");
    assert("- ["@ + "x"@ + "] "@ =~= "- [x] "@);
    assert("- ["@ + " "@ + "] "@ =~= "- [ ] "@);
    assert("\n"@ =~= seq!['\n']);
}

/// Whether the data of a document are those of a todo, and else as they were.
pub open spec fn says_todo(
    data: JsonView,
    before: JsonView,
    title: Seq<char>,
    done: bool,
    description: Option<Seq<char>>,
) -> bool {
    &&& data is Object
    &&& data.says("title"@, title)
    &&& data->Object_0.contains_key("completed"@) && data->Object_0["completed"@]
        == JsonView::Bool(done)
    &&& description is Some ==> data.says("description"@, description->0)
    &&& description is None ==> !data->Object_0.contains_key("description"@)
    &&& forall|k: Seq<char>|
        k != "title"@ && k != "completed"@ && k != "description"@ ==> {
            &&& #[trigger] data->Object_0.contains_key(k) <==> before is Object
                && before->Object_0.contains_key(k)
            &&& data->Object_0.contains_key(k) ==> data->Object_0[k] == before->Object_0[k]
        }
}

proof fn lemma_keys()
    ensures
        "title"@ != "completed"@,
        "title"@ != "description"@,
        "completed"@ != "description"@,
        "title"@ != "content"@,
        "Todos"@ != "Notes"@,
        "schema"@ != "data"@,
        "id"@ != "data"@,
        "id"@ != "schema"@,
{
    reveal_strlit("title");
    reveal_strlit("completed");
    reveal_strlit("description");
    reveal_strlit("content");
    reveal_strlit("Todos");
    reveal_strlit("Notes");
    reveal_strlit("schema");
    reveal_strlit("data");
    reveal_strlit("id");
    assert("title"@[0] == 't' && "completed"@[0] == 'c' && "description"@[0] == 'd');
    assert("content"@[0] == 'c' && "Todos"@[0] == 'T' && "Notes"@[0] == 'N');
    assert("schema"@[0] == 's' && "data"@[0] == 'd' && "id"@[0] == 'i');
}

/// A todo that is saved says what its file says, whatever it said before: its title, whether it is
/// done, and its description, which goes where the file has none. All else stays.
pub proof fn law_todo_is_saved(
    data: JsonView,
    title: Seq<char>,
    done: bool,
    description: Option<Seq<char>>,
)
    requires
        data.takes_members(),
        fits_file(title, description),
    ensures
        says_todo(
            markdown::saved_data(
                "Todos"@,
                data,
                encode_utf8(todo_file(title, done, description)),
            ),
            data,
            title,
            done,
            description,
        ),
{
    let s = todo_file(title, done, description);
    lemma_todo_file(title, done, description);
    file_laws::law_todo_reads_back(title, done, description);
    encode_utf8_valid_utf8(s);
    encode_utf8_decode_utf8(s);
    lemma_keys();
}

/// A todo that is saved is shown as it was saved, whatever it said before.
pub proof fn law_saved_todo_is_shown(
    data: JsonView,
    title: Seq<char>,
    done: bool,
    description: Option<Seq<char>>,
    doc: DocumentView,
)
    requires
        data.takes_members(),
        fits_file(title, description),
        doc.schema == "data/abstraction/todo"@,
        doc.data == markdown::saved_data(
            "Todos"@,
            data,
            encode_utf8(todo_file(title, done, description)),
        ),
    ensures
        render::rendered_content(doc) == RenderedContent::Inline(
            encode_utf8(todo_file(title, done, description)),
        ),
{
    law_todo_is_saved(data, title, done, description);
    assert(content_laws::has(doc.data, "title"@, title)) by {
        assert(!text::is_white_space(title[0]));
    }
    content_laws::law_todo_shows_what_it_says(doc, title);
    reveal_strlit("\n");
    assert("\n"@ =~= seq!['\n']);
    assert(content_laws::is_done(doc.data) == done);
    match description {
        Some(d) => {
            assert(content_laws::has(doc.data, "description"@, d)) by {
                assert(!text::is_white_space(d[0]));
            }
        },
        None => {
            assert(content_laws::lacks(doc.data, "description"@));
        },
    }
}

/// A line with a box is checked where the box holds an `x`, in either case, and its title is what
/// stands behind the box. A line without a box is a title.
pub proof fn law_box_of_a_todo(mark: Seq<char>, rest: Seq<char>, plain: Seq<char>)
    requires
        forall|i: int| 0 <= i < mark.len() ==> #[trigger] mark[i] != ']',
        plain.len() < 3 || plain[0] != '-' || plain[1] != ' ' || plain[2] != '[' || (forall|i: int|
            3 <= i < plain.len() ==> #[trigger] plain[i] != ']'),
    ensures
        markdown::todo_line(seq!['-', ' ', '['] + mark + seq![']'] + rest) == (
            text::trimmed(rest),
            text::trimmed(mark) == seq!['x'] || text::trimmed(mark) == seq!['X'],
        ),
        markdown::todo_line(plain) == (plain, false),
{
    reveal_strlit("- [");
    reveal_strlit("x");
    reveal_strlit("X");
    assert("- ["@ =~= seq!['-', ' ', '[']);
    assert("x"@ =~= seq!['x']);
    assert("X"@ =~= seq!['X']);
    let k = CharClass::Is(']');
    let line = seq!['-', ' ', '['] + mark + seq![']'] + rest;
    let tail = line.skip(3);
    let n = mark.len() as int;
    assert(line.take(3) =~= "- ["@);
    assert(tail[n] == ']');
    assert forall|j: int| 0 <= j < n implies !k.holds(#[trigger] tail[j]) by {
        assert(tail[j] == mark[j]);
    }
    text::lemma_find(tail, k, n);
    assert(tail.take(n) =~= mark);
    assert(tail.skip(n + 1) =~= rest);
    if text::starts_with(plain, "- ["@) {
        let p = plain.take(3);
        assert(p[0] == '-' && p[1] == ' ' && p[2] == '[');
        assert(plain[0] == '-' && plain[1] == ' ' && plain[2] == '[');
        let q = plain.skip(3);
        assert forall|j: int| 0 <= j < q.len() implies !k.holds(#[trigger] q[j]) by {
            assert(q[j] == plain[j + 3]);
        }
        text::lemma_find(q, k, q.len() as int);
    }
}

/// Whether a text is one line.
pub open spec fn one_line(s: Seq<char>) -> bool {
    &&& forall|i: int| 0 <= i < s.len() ==> #[trigger] s[i] != '\n'
    &&& s.len() == 0 || s.last() != '\r'
}

/// The first line of a file that is not blank is that of the todo; blank lines before it do not
/// matter, and what stands below it is the description.
pub proof fn law_first_line_is_the_todo(
    gap: Seq<char>,
    line: Seq<char>,
    body: Seq<char>,
    more: Seq<char>,
)
    requires
        one_line(gap) && blank(gap),
        one_line(line) && !blank(line),
        is_trim(body) && plain_lines(body),
    ensures
        markdown::todo_of(gap + seq!['\n'] + more) == markdown::todo_of(more),
        markdown::todo_of(line + seq!['\n']) == (TodoView {
            title: markdown::todo_line(text::trimmed(line)).0,
            done: markdown::todo_line(text::trimmed(line)).1,
            description: None,
        }),
        markdown::todo_of(line + seq!['\n'] + body.push('\n')) == (TodoView {
            title: markdown::todo_line(text::trimmed(line)).0,
            done: markdown::todo_line(text::trimmed(line)).1,
            description: Some(body),
        }),
{
    file_laws::lemma_first_line(gap, more);
    content_laws::lemma_blank(gap);
    let g = seq![gap] + markdown::lines_of(more);
    assert(g[0] == gap);
    assert(g.drop_first() =~= markdown::lines_of(more));

    content_laws::lemma_blank(line);
    file_laws::lemma_first_line(line, Seq::empty());
    assert(line + seq!['\n'] + Seq::<char>::empty() =~= line + seq!['\n']);
    assert(markdown::lines_of(Seq::<char>::empty()) =~= Seq::empty());
    let a = seq![line] + markdown::lines_of(Seq::<char>::empty());
    assert(a[0] == line);
    assert(a.drop_first() =~= Seq::empty());
    assert(markdown::joined(Seq::<Seq<char>>::empty()) =~= Seq::empty());
    content_laws::lemma_blank(Seq::<char>::empty());

    file_laws::lemma_first_line(line, body.push('\n'));
    file_laws::lemma_join_lines(body);
    let b = seq![line] + markdown::lines_of(body.push('\n'));
    assert(b[0] == line);
    assert(b.drop_first() =~= markdown::lines_of(body.push('\n')));
    text::lemma_strip_id(body, CharClass::White);
}

// ── headings ─────────────────────────────────────────────────────────────────

/// Whether a line opens or closes a block of code.
pub open spec fn is_fence_line(line: Seq<char>) -> bool {
    let t = text::trimmed(line);
    t.len() >= 3 && (t[0] == '`' && t[1] == '`' && t[2] == '`' || t[0] == '~' && t[1] == '~'
        && t[2] == '~')
}

/// Whether a line starts as a heading does.
pub open spec fn is_heading_line(line: Seq<char>) -> bool {
    let t = text::trimmed(line);
    t.len() >= 2 && t[0] == '#' && t[1] == ' '
}

proof fn lemma_line_kinds(line: Seq<char>)
    ensures
        markdown::is_fence(text::trimmed(line)) <==> is_fence_line(line),
        markdown::heading(text::trimmed(line)) is Some ==> is_heading_line(line),
{
    let t = text::trimmed(line);
    reveal_strlit("```");
    reveal_strlit("~~~");
    reveal_strlit("# ");
    if t.len() >= 3 {
        let p = t.take(3);
        assert(p[0] == t[0] && p[1] == t[1] && p[2] == t[2]);
        if is_fence_line(line) {
            if t[0] == '`' {
                assert(p =~= "```"@);
            } else {
                assert(p =~= "~~~"@);
            }
        }
        if p == "```"@ {
            assert(p[0] == '`' && p[1] == '`' && p[2] == '`');
        }
        if p == "~~~"@ {
            assert(p[0] == '~' && p[1] == '~' && p[2] == '~');
        }
    }
    if text::starts_with(t, "# "@) {
        let p = t.take(2);
        assert(p[0] == '#' && p[1] == ' ');
    }
}

/// The first heading of the first level is the title, with or without marks behind it; of a long
/// one the first two hundred characters are.
pub proof fn law_heading_is_the_title(
    title: Seq<char>,
    marks: Seq<char>,
    rest: Seq<Seq<char>>,
)
    requires
        is_trim(title),
        title.last() != '#',
        forall|i: int| 0 <= i < marks.len() ==> #[trigger] marks[i] == '#',
    ensures
        ({
            let cut = if title.len() <= 200 {
                title
            } else {
                title.take(200)
            };
            &&& markdown::heading_in(seq![seq!['#', ' '] + title] + rest, false) == Some(cut)
            &&& marks.len() > 0 ==> markdown::heading_in(
                seq![seq!['#', ' '] + title + seq![' '] + marks] + rest,
                false,
            ) == Some(cut)
        }),
{
    reveal_strlit("# ");
    assert("# "@ =~= seq!['#', ' ']);
    let a = seq!['#', ' '] + title;
    let la = seq![a] + rest;
    assert(la[0] == a);
    assert(a[0] == '#' && a[1] == ' ' && a.last() == title.last());
    text::lemma_strip_id(a, CharClass::White);
    lemma_line_kinds(a);
    assert(a.take(2) =~= "# "@);
    assert(a.skip(2) =~= title);
    text::lemma_strip_id(title, CharClass::White);
    assert(text::strip_back(title, CharClass::Is('#')) == title);
    if marks.len() > 0 {
        let b = seq!['#', ' '] + title + seq![' '] + marks;
        let lb = seq![b] + rest;
        assert(lb[0] == b);
        assert(b.last() == marks[marks.len() - 1]);
        assert(b[0] == '#' && b[1] == ' ');
        text::lemma_strip_id(b, CharClass::White);
        lemma_line_kinds(b);
        assert(b.take(2) =~= "# "@);
        let c = title + seq![' '] + marks;
        assert(b.skip(2) =~= c);
        assert(c[0] == title[0] && c.last() == '#');
        text::lemma_strip_id(c, CharClass::White);
        lemma_strip_marks(title + seq![' '], marks);
        content_laws::law_trim(Seq::empty(), title, seq![' ']);
        assert(Seq::<char>::empty() + title + seq![' '] =~= title + seq![' ']);
    }
}

proof fn lemma_strip_marks(s: Seq<char>, marks: Seq<char>)
    requires
        s.len() > 0,
        s.last() != '#',
        forall|i: int| 0 <= i < marks.len() ==> #[trigger] marks[i] == '#',
    ensures
        text::strip_back(s + marks, CharClass::Is('#')) == s,
    decreases marks.len(),
{
    if marks.len() == 0 {
        assert(s + marks =~= s);
    } else {
        assert((s + marks).last() == marks[marks.len() - 1]);
        assert((s + marks).drop_last() =~= s + marks.drop_last());
        lemma_strip_marks(s, marks.drop_last());
    }
}

/// Lines that are neither headings nor the ends of code do not matter for the title.
pub proof fn law_other_lines_give_no_title(lines: Seq<Seq<char>>, rest: Seq<Seq<char>>)
    requires
        forall|i: int|
            0 <= i < lines.len() ==> !is_fence_line(#[trigger] lines[i]) && !is_heading_line(
                lines[i],
            ),
    ensures
        markdown::heading_in(lines + rest, false) == markdown::heading_in(rest, false),
        markdown::heading_in(lines, false) is None,
    decreases lines.len(),
{
    if lines.len() == 0 {
        assert(lines + rest =~= rest);
    } else {
        let f = lines.drop_first();
        assert(forall|i: int| 0 <= i < f.len() ==> f[i] == lines[i + 1]);
        lemma_line_kinds(lines[0]);
        law_other_lines_give_no_title(f, rest);
        assert((lines + rest)[0] == lines[0]);
        assert((lines + rest).drop_first() =~= f + rest);
    }
}

/// What stands in a block of code is no title, whatever it looks like.
pub proof fn law_code_gives_no_title(
    open: Seq<char>,
    code: Seq<Seq<char>>,
    close: Seq<char>,
    rest: Seq<Seq<char>>,
)
    requires
        is_fence_line(open),
        is_fence_line(close),
        forall|i: int| 0 <= i < code.len() ==> !is_fence_line(#[trigger] code[i]),
    ensures
        markdown::heading_in(seq![open] + code + seq![close] + rest, false) == markdown::heading_in(
            rest,
            false,
        ),
        markdown::heading_in(seq![open] + code, false) is None,
{
    lemma_line_kinds(open);
    let all = seq![open] + code + seq![close] + rest;
    let inner = code + (seq![close] + rest);
    assert(all[0] == open);
    assert(all.drop_first() =~= inner);
    lemma_code(code, close, rest);
    let part = seq![open] + code;
    assert(part[0] == open);
    assert(part.drop_first() =~= code);
}

proof fn lemma_code(code: Seq<Seq<char>>, close: Seq<char>, rest: Seq<Seq<char>>)
    requires
        is_fence_line(close),
        forall|i: int| 0 <= i < code.len() ==> !is_fence_line(#[trigger] code[i]),
    ensures
        markdown::heading_in(code + (seq![close] + rest), true) == markdown::heading_in(
            rest,
            false,
        ),
        markdown::heading_in(code, true) is None,
    decreases code.len(),
{
    let all = code + (seq![close] + rest);
    if code.len() == 0 {
        lemma_line_kinds(close);
        assert(all =~= seq![close] + rest);
        assert(all[0] == close);
        assert(all.drop_first() =~= rest);
    } else {
        let f = code.drop_first();
        assert(forall|i: int| 0 <= i < f.len() ==> f[i] == code[i + 1]);
        lemma_line_kinds(code[0]);
        lemma_code(f, close, rest);
        assert(all[0] == code[0]);
        assert(all.drop_first() =~= f + (seq![close] + rest));
    }
}

/// The lines of a text are what stands between its line feeds.
pub proof fn law_lines(line: Seq<char>, rest: Seq<char>)
    requires
        one_line(line),
    ensures
        markdown::lines_of(line + seq!['\n'] + rest) == seq![line] + markdown::lines_of(rest),
        markdown::lines_of(line + seq!['\r', '\n'] + rest) == seq![line] + markdown::lines_of(rest),
        line.len() > 0 ==> markdown::lines_of(line) == seq![line],
        markdown::lines_of(Seq::<char>::empty()) == Seq::<Seq<char>>::empty(),
{
    file_laws::lemma_first_line(line, rest);
    let k = CharClass::Is('\n');
    let t = line + seq!['\r', '\n'] + rest;
    let n = line.len() as int;
    assert(t[n + 1] == '\n' && t[n] == '\r');
    assert forall|j: int| 0 <= j < n + 1 implies !k.holds(#[trigger] t[j]) by {
        if j < n {
            assert(t[j] == line[j]);
        }
    }
    text::lemma_find(t, k, n + 1);
    assert(t.take(n + 1) =~= line.push('\r'));
    assert(line.push('\r').drop_last() =~= line);
    assert(t.skip(n + 2) =~= rest);
    text::lemma_find(line, k, n);
}

// ── notes ────────────────────────────────────────────────────────────────────

/// Whether the data of a document are those of a note, and else as they were. A note whose text
/// has no heading keeps its title.
pub open spec fn says_note(
    data: JsonView,
    before: JsonView,
    content: Seq<char>,
    heading: Option<Seq<char>>,
) -> bool {
    &&& data is Object
    &&& data.says("content"@, content)
    &&& heading is Some ==> data.says("title"@, heading->0)
    &&& forall|k: Seq<char>|
        k != "content"@ && (k != "title"@ || heading is None) ==> {
            &&& #[trigger] data->Object_0.contains_key(k) <==> before is Object
                && before->Object_0.contains_key(k)
            &&& data->Object_0.contains_key(k) ==> data->Object_0[k] == before->Object_0[k]
        }
}

/// A note that is saved has the whole of its file as its content, and the first heading as its
/// title. All else stays.
pub proof fn law_note_is_saved(data: JsonView, content: Seq<char>)
    requires
        data.takes_members(),
    ensures
        says_note(
            markdown::saved_data("Notes"@, data, encode_utf8(content)),
            data,
            content,
            markdown::heading_in(markdown::lines_of(content), false),
        ),
{
    encode_utf8_valid_utf8(content);
    encode_utf8_decode_utf8(content);
    lemma_keys();
}

/// A note that is saved is shown as it was saved, ended by a line feed.
pub proof fn law_saved_note_is_shown(data: JsonView, content: Seq<char>, doc: DocumentView)
    requires
        data.takes_members(),
        !blank(content),
        doc.schema == "data/abstraction/note"@,
        doc.data == markdown::saved_data("Notes"@, data, encode_utf8(content)),
    ensures
        render::rendered_content(doc) == RenderedContent::Inline(
            encode_utf8(
                if content.last() == '\n' {
                    content
                } else {
                    content + seq!['\n']
                },
            ),
        ),
{
    law_note_is_saved(data, content);
    assert(content_laws::has(doc.data, "content"@, content));
    content_laws::law_note_shows_its_content(doc);
}

// ── new files ────────────────────────────────────────────────────────────────

/// A file name without its extension is what stands before its last dot.
pub proof fn law_stem(front: Seq<char>, ext: Seq<char>)
    requires
        forall|i: int| 0 <= i < ext.len() ==> #[trigger] ext[i] != '.',
    ensures
        markdown::stem(front + seq!['.'] + ext) == front,
        markdown::stem(ext) == ext,
{
    let k = CharClass::Is('.');
    let s = front + seq!['.'] + ext;
    let at = front.len() as int;
    assert forall|j: int| at < j < s.len() implies !k.holds(#[trigger] s[j]) by {
        assert(s[j] == ext[j - at - 1]);
    }
    text::lemma_rfind(s, k, at);
    text::lemma_rfind(ext, k, -1);
    assert(s.take(at) =~= front);
}

/// A new file in the notes becomes a note with its content, titled by its first heading or else
/// by its name.
pub proof fn law_new_note(name: Seq<char>, content: Seq<char>)
    ensures
        ({
            let h = markdown::heading_in(markdown::lines_of(content), false);
            markdown::new_document("Notes"@, name, encode_utf8(content)) == JsonView::Object(
                map![
                    "schema"@ => JsonView::Text("data/abstraction/note"@),
                    "data"@ => JsonView::Object(
                        map![
                            "title"@ => JsonView::Text(
                                if h is Some {
                                    h->0
                                } else {
                                    markdown::stem(name)
                                },
                            ),
                            "content"@ => JsonView::Text(content),
                        ],
                    ),
                ],
            )
        }),
{
    encode_utf8_valid_utf8(content);
    encode_utf8_decode_utf8(content);
    lemma_keys();
    let d = markdown::new_document("Notes"@, name, encode_utf8(content));
    let h = markdown::heading_in(markdown::lines_of(content), false);
    let inner = map![
        "title"@ => JsonView::Text(
            if h is Some {
                h->0
            } else {
                markdown::stem(name)
            },
        ),
        "content"@ => JsonView::Text(content),
    ];
    assert(markdown::new_data("Notes"@, name, encode_utf8(content))->Object_0 =~= inner);
    assert(d->Object_0 =~= map![
        "schema"@ => JsonView::Text("data/abstraction/note"@),
        "data"@ => JsonView::Object(inner),
    ]);
}

/// A new file in the todos becomes a todo that says what the file says.
pub proof fn law_new_todo(
    name: Seq<char>,
    title: Seq<char>,
    done: bool,
    description: Option<Seq<char>>,
)
    requires
        fits_file(title, description),
    ensures
        ({
            let d = markdown::new_document(
                "Todos"@,
                name,
                encode_utf8(todo_file(title, done, description)),
            );
            &&& d is Object
            &&& d->Object_0.dom() == set!["schema"@, "data"@]
            &&& d.says("schema"@, "data/abstraction/todo"@)
            &&& says_todo(d->Object_0["data"@], JsonView::Null, title, done, description)
        }),
{
    let s = todo_file(title, done, description);
    lemma_todo_file(title, done, description);
    file_laws::law_todo_reads_back(title, done, description);
    encode_utf8_valid_utf8(s);
    encode_utf8_decode_utf8(s);
    lemma_keys();
    let d = markdown::new_document("Todos"@, name, encode_utf8(s));
    assert(d->Object_0.dom() =~= set!["schema"@, "data"@]);
}

/// An empty new file becomes a todo that is titled by the file's name and is not done.
pub proof fn law_new_empty_todo(name: Seq<char>)
    ensures
        ({
            let d = markdown::new_document("Todos"@, name, Seq::empty());
            says_todo(d->Object_0["data"@], JsonView::Null, markdown::stem(name), false, None)
        }),
{
    let e = Seq::<char>::empty();
    assert(encode_utf8(e) =~= Seq::empty());
    encode_utf8_valid_utf8(e);
    encode_utf8_decode_utf8(e);
    lemma_keys();
    assert(markdown::lines_of(e) =~= Seq::empty());
}

// ── what is sent ─────────────────────────────────────────────────────────────

/// What is sent to save a document names it and its schema, and has the data that the save makes
/// of those that it had.
pub proof fn law_update_is_of_the_document(
    existing: JsonView,
    dir: Seq<char>,
    id: u64,
    buffer: Seq<u8>,
)
    requires
        existing is Object,
    ensures
        ({
            let r = writes::update_document(existing, dir, id, buffer);
            let m = existing->Object_0;
            &&& r is Object
            &&& r->Object_0.dom() == set!["id"@, "schema"@, "data"@]
            &&& r->Object_0["id"@] == JsonView::Number(json::number_from(id))
            &&& forall|s: Seq<char>| #[trigger]
                existing.says("schema"@, s) ==> r.says("schema"@, s)
            &&& existing.says_nothing("schema"@) ==> r.says("schema"@, "data/abstraction/note"@)
            &&& m.contains_key("data"@) ==> r->Object_0["data"@] == markdown::saved_data(
                dir,
                m["data"@],
                buffer,
            )
            &&& !m.contains_key("data"@) ==> r->Object_0["data"@] == markdown::saved_data(
                dir,
                JsonView::Object(Map::empty()),
                buffer,
            )
        }),
{
    lemma_keys();
    let r = writes::update_document(existing, dir, id, buffer);
    assert(r->Object_0.dom() =~= set!["id"@, "schema"@, "data"@]);
    match existing.member_text("schema"@) {
        Some(s) => {
            assert(existing.says("schema"@, s));
        },
        None => {
            assert(existing.says_nothing("schema"@));
        },
    }
}

/// Setting a member of an object sets it and nothing else; taking it away takes it away and
/// nothing else.
pub proof fn law_members(v: JsonView, k: Seq<char>, x: JsonView, other: Seq<char>)
    requires
        v.takes_members(),
    ensures
        v.with_member(k, x).member(k) == Some(x),
        other != k ==> v.with_member(k, x).member(other) == v.member(other),
        v.without_member(k).member(k) is None,
        other != k ==> v.without_member(k).member(other) == v.member(other),
        v is Object && v->Object_0.contains_key(k) ==> v.member(k) == Some(v->Object_0[k]),
        v is Object && !v->Object_0.contains_key(k) ==> v.member(k) is None,
{
}

} // verus!
