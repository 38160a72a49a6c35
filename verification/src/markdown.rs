//! The Markdown of notes and todos, and how an edited file becomes a document again.

use crate::json;
use crate::json::{Json, JsonView};
use crate::render;
use crate::render::from_utf8_lossy;
use crate::text;
use crate::text::{
    chars_of, copy_text, find_in, matches_at, rfind_in, same_text, slice_of, string_of, stripped,
    stripped_back, text_of, CharClass,
};
use vstd::prelude::*;

verus! {

// ── lines ────────────────────────────────────────────────────────────────────

/// A line without a carriage return at its end.
pub open spec fn chomped(line: Seq<char>) -> Seq<char> {
    if line.len() > 0 && line.last() == '\r' {
        line.drop_last()
    } else {
        line
    }
}

/// The lines of a text. A line ends with a line feed or a carriage return and a line feed; the
/// last line may end with the text.
pub open spec fn lines_of(s: Seq<char>) -> Seq<Seq<char>>
    decreases s.len(),
{
    proof {
        text::lemma_find_props(s, CharClass::Is('\n'));
    }
    let i = text::find(s, CharClass::Is('\n'));
    if s.len() == 0 {
        Seq::empty()
    } else if i >= s.len() {
        seq![s]
    } else {
        seq![chomped(s.take(i))] + lines_of(s.skip(i + 1))
    }
}

/// Lines put together again with line feeds between them.
pub open spec fn joined(lines: Seq<Seq<char>>) -> Seq<char>
    decreases lines.len(),
{
    if lines.len() == 0 {
        Seq::empty()
    } else if lines.len() == 1 {
        lines[0]
    } else {
        lines[0] + seq!['\n'] + joined(lines.drop_first())
    }
}

/// The characters of each of a list of lines.
pub open spec fn line_views(v: Seq<Vec<char>>) -> Seq<Seq<char>> {
    Seq::new(v.len(), |i: int| v[i]@)
}

/// Splits a text into its lines.
pub(crate) fn lines_in(s: &Vec<char>) -> (r: Vec<Vec<char>>)
    ensures
        line_views(r@) == lines_of(s@),
{
    let n = s.len();
    let mut out: Vec<Vec<char>> = Vec::new();
    let mut at: usize = 0;
    assert(s@.skip(0) =~= s@);
    assert(line_views(out@) + lines_of(s@) =~= lines_of(s@));
    while at < n
        invariant
            n == s@.len(),
            at <= n,
            line_views(out@) + lines_of(s@.skip(at as int)) == lines_of(s@),
        decreases n - at,
    {
        let ghost rest = s@.skip(at as int);
        let ghost o = line_views(out@);
        let mut end: usize = at;
        while end < n && s[end] != '\n'
            invariant
                n == s@.len(),
                at <= end <= n,
                forall|j: int| at <= j < end ==> s@[j] != '\n',
            decreases n - end,
        {
            end = end + 1;
        }
        proof {
            assert forall|j: int| 0 <= j < end - at implies !CharClass::Is('\n').holds(
                #[trigger] rest[j],
            ) by {
                assert(rest[j] == s@[at + j]);
            }
            text::lemma_find(rest, CharClass::Is('\n'), end - at);
        }
        if end == n {
            let line = slice_of(s, at, n);
            out.push(line);
            proof {
                assert(line@ =~= rest);
                assert(line_views(out@) =~= o.push(rest));
                assert(o + lines_of(rest) =~= line_views(out@));
                assert(s@.skip(n as int) =~= Seq::empty());
                assert(lines_of(Seq::<char>::empty()) =~= Seq::empty());
                assert(line_views(out@) + lines_of(s@.skip(n as int)) =~= line_views(out@));
            }
            at = n;
        } else {
            let stop = if end > at && s[end - 1] == '\r' {
                end - 1
            } else {
                end
            };
            let line = slice_of(s, at, stop);
            out.push(line);
            proof {
                assert(rest.take(end - at) =~= s@.subrange(at as int, end as int));
                assert(line@ =~= chomped(rest.take(end - at)));
                assert(line_views(out@) =~= o.push(line@));
                assert(rest.skip(end - at + 1) =~= s@.skip(end + 1));
                assert(line_views(out@) + lines_of(s@.skip(end + 1)) =~= o + (seq![line@]
                    + lines_of(s@.skip(end + 1))));
            }
            at = end + 1;
        }
    }
    assert(s@.skip(n as int) =~= Seq::empty());
    assert(lines_of(Seq::<char>::empty()) =~= Seq::empty());
    assert(line_views(out@) =~= lines_of(s@));
    out
}

/// Puts the lines from an index on together.
fn join_from(lines: &Vec<Vec<char>>, from: usize) -> (r: Vec<char>)
    requires
        from <= lines@.len(),
    ensures
        r@ == joined(line_views(lines@).skip(from as int)),
    decreases lines@.len() - from,
{
    let ghost v = line_views(lines@);
    if from == lines.len() {
        assert(v.skip(from as int) =~= Seq::empty());
        Vec::new()
    } else {
        let mut out = slice_of(&lines[from], 0, lines[from].len());
        assert(out@ =~= v.skip(from as int)[0]);
        if from + 1 < lines.len() {
            let mut rest = join_from(lines, from + 1);
            assert(v.skip(from as int).drop_first() =~= v.skip(from + 1));
            let ghost o = out@;
            out.push('\n');
            out.append(&mut rest);
            assert(out@ =~= o + seq!['\n'] + joined(v.skip(from + 1)));
        }
        out
    }
}

// ── headings ─────────────────────────────────────────────────────────────────

/// A line that opens or closes a block of code.
pub open spec fn is_fence(line: Seq<char>) -> bool {
    text::starts_with(line, "```"@) || text::starts_with(line, "~~~"@)
}

/// The most characters that a title taken from a heading has.
pub const TITLE_LIMIT: usize = 200;

/// The title of a first-level heading.
pub open spec fn heading(line: Seq<char>) -> Option<Seq<char>> {
    if text::starts_with(line, "# "@) {
        let t = text::trimmed(
            text::strip_back(text::trimmed(line.skip("# "@.len() as int)), CharClass::Is('#')),
        );
        if t.len() == 0 {
            None
        } else if t.len() > TITLE_LIMIT {
            Some(t.take(TITLE_LIMIT as int))
        } else {
            Some(t)
        }
    } else {
        None
    }
}

/// The first heading of some lines that stands outside of code.
pub open spec fn heading_in(lines: Seq<Seq<char>>, in_fence: bool) -> Option<Seq<char>>
    decreases lines.len(),
{
    if lines.len() == 0 {
        None
    } else {
        let line = text::trimmed(lines[0]);
        if is_fence(line) {
            heading_in(lines.drop_first(), !in_fence)
        } else if !in_fence && heading(line) is Some {
            heading(line)
        } else {
            heading_in(lines.drop_first(), in_fence)
        }
    }
}

fn heading_of(line: &Vec<char>) -> (r: Option<Vec<char>>)
    ensures
        heading(line@) == (match r {
            Some(t) => Some(t@),
            None => None,
        }),
{
    let mark = chars_of("# ");
    assert(line@.skip(0) =~= line@);
    if !matches_at(line, 0, &mark) {
        return None;
    }
    let rest = slice_of(line, mark.len(), line.len());
    assert(rest@ =~= line@.skip("# "@.len() as int));
    let t = stripped(
        &stripped_back(&stripped(&rest, CharClass::White), CharClass::Is('#')),
        CharClass::White,
    );
    if t.len() == 0 {
        None
    } else if t.len() > TITLE_LIMIT {
        assert(t@.take(TITLE_LIMIT as int) =~= t@.subrange(0, TITLE_LIMIT as int));
        Some(slice_of(&t, 0, TITLE_LIMIT))
    } else {
        Some(t)
    }
}

/// The first first-level heading (`# Title`) of a Markdown text, wherever it stands, but not in
/// a fenced block of code.
pub fn first_markdown_h1(content: &str) -> (r: Option<String>)
    ensures
        heading_in(lines_of(content@), false) == (match r {
            Some(t) => Some(t@),
            None => None,
        }),
{
    let lines = lines_in(&chars_of(content));
    let back = chars_of("```");
    let tilde = chars_of("~~~");
    let ghost all = line_views(lines@);
    let mut in_fence = false;
    let mut i: usize = 0;
    assert(all.skip(0) =~= all);
    while i < lines.len()
        invariant
            back@ == "```"@,
            tilde@ == "~~~"@,
            all == line_views(lines@),
            all == lines_of(content@),
            i <= lines@.len(),
            heading_in(all, false) == heading_in(all.skip(i as int), in_fence),
        decreases lines@.len() - i,
    {
        let line = stripped(&lines[i], CharClass::White);
        assert(all.skip(i as int).drop_first() =~= all.skip(i + 1));
        assert(line@.skip(0) =~= line@);
        if matches_at(&line, 0, &back) || matches_at(&line, 0, &tilde) {
            in_fence = !in_fence;
        } else if !in_fence {
            if let Some(t) = heading_of(&line) {
                return Some(text_of(&t));
            }
        }
        i = i + 1;
    }
    None
}

// ── todos ────────────────────────────────────────────────────────────────────

/// What a todo says.
pub ghost struct TodoView {
    pub title: Seq<char>,
    pub done: bool,
    pub description: Option<Seq<char>>,
}

/// The title of a line, and whether it is checked. A line without a box is a title.
pub open spec fn todo_line(line: Seq<char>) -> (Seq<char>, bool) {
    let rest = line.skip("- ["@.len() as int);
    let i = text::find(rest, CharClass::Is(']'));
    if text::starts_with(line, "- ["@) && i < rest.len() {
        let mark = text::trimmed(rest.take(i));
        (text::trimmed(rest.skip(i + 1)), mark == "x"@ || mark == "X"@)
    } else {
        (line, false)
    }
}

/// The text, where it is not blank, without white space at its ends.
pub open spec fn description_of(s: Seq<char>) -> Option<Seq<char>> {
    let t = text::trimmed(s);
    if t.len() == 0 {
        None
    } else {
        Some(t)
    }
}

/// The todo that some lines describe: the first line that is not blank gives the title, the
/// rest the description.
pub open spec fn todo_in(lines: Seq<Seq<char>>) -> TodoView
    decreases lines.len(),
{
    if lines.len() == 0 {
        TodoView { title: Seq::empty(), done: false, description: None }
    } else {
        let line = text::trimmed(lines[0]);
        if line.len() == 0 {
            todo_in(lines.drop_first())
        } else {
            TodoView {
                title: todo_line(line).0,
                done: todo_line(line).1,
                description: description_of(joined(lines.drop_first())),
            }
        }
    }
}

/// The todo that a text describes.
pub open spec fn todo_of(s: Seq<char>) -> TodoView {
    todo_in(lines_of(s))
}

fn parse_todo_line(line: &Vec<char>) -> (r: (Vec<char>, bool))
    ensures
        (r.0@, r.1) == todo_line(line@),
{
    let open = chars_of("- [");
    assert(line@.skip(0) =~= line@);
    if matches_at(line, 0, &open) {
        let rest = slice_of(line, open.len(), line.len());
        assert(rest@ =~= line@.skip("- ["@.len() as int));
        let n = rest.len();
        let i = find_in(&rest, CharClass::Is(']'));
        if i < n {
            let mark = slice_of(&rest, 0, i);
            assert(mark@ =~= rest@.take(i as int));
            let mark = text_of(&stripped(&mark, CharClass::White));
            let title = slice_of(&rest, i + 1, n);
            assert(title@ =~= rest@.skip(i + 1));
            let done = same_text(mark.as_str(), "x") || same_text(mark.as_str(), "X");
            return (stripped(&title, CharClass::White), done);
        }
    }
    (slice_of_all(line), false)
}

fn slice_of_all(s: &Vec<char>) -> (r: Vec<char>)
    ensures
        r@ == s@,
{
    let r = slice_of(s, 0, s.len());
    assert(r@ =~= s@);
    r
}

/// Reads a todo from its Markdown: `- [x] title` and, below it, a description.
pub fn parse_todo_markdown(text: &str) -> (r: (String, bool, Option<String>))
    ensures
        todo_of(text@) == (TodoView {
            title: r.0@,
            done: r.1,
            description: match r.2 {
                Some(d) => Some(d@),
                None => None,
            },
        }),
{
    let lines = lines_in(&chars_of(text));
    let ghost all = line_views(lines@);
    let mut i: usize = 0;
    assert(all.skip(0) =~= all);
    while i < lines.len()
        invariant
            all == line_views(lines@),
            all == lines_of(text@),
            i <= lines@.len(),
            todo_in(all) == todo_in(all.skip(i as int)),
        decreases lines@.len() - i,
    {
        let line = stripped(&lines[i], CharClass::White);
        assert(all.skip(i as int).drop_first() =~= all.skip(i + 1));
        if line.len() > 0 {
            let (title, done) = parse_todo_line(&line);
            let body = stripped(&join_from(&lines, i + 1), CharClass::White);
            let description = if body.len() == 0 {
                None
            } else {
                Some(text_of(&body))
            };
            return (text_of(&title), done, description);
        }
        i = i + 1;
    }
    (String::new(), false, None)
}

// ── documents from buffers ───────────────────────────────────────────────────

/// The data of a document after its file was saved. A todo's line and description are read
/// from the file; any other file is the document's content, and its first heading, where it has
/// one, the title. What the file does not carry stays.
pub open spec fn saved_data(dir: Seq<char>, data: JsonView, buffer: Seq<u8>) -> JsonView {
    let s = render::utf8_text(buffer);
    if dir == "Todos"@ {
        let todo = todo_of(s);
        let d = data.with_member("title"@, JsonView::Text(todo.title)).with_member(
            "completed"@,
            JsonView::Bool(todo.done),
        );
        match todo.description {
            Some(t) => d.with_member("description"@, JsonView::Text(t)),
            None => d.without_member("description"@),
        }
    } else {
        let d = data.with_member("content"@, JsonView::Text(s));
        match heading_in(lines_of(s), false) {
            Some(t) => d.with_member("title"@, JsonView::Text(t)),
            None => d,
        }
    }
}

/// Maps an edited buffer back onto a document's data.
pub fn apply_buffer_to_data(dir: &str, data: &mut Json, buffer: &[u8])
    requires
        old(data)@.takes_members(),
    ensures
        final(data)@ == saved_data(dir@, old(data)@, buffer@),
{
    let s = from_utf8_lossy(buffer);
    if same_text(dir, "Todos") {
        let (title, done, description) = parse_todo_markdown(s.as_str());
        data.set("title", Json::Text(title));
        data.set("completed", Json::Bool(done));
        match description {
            Some(d) => {
                data.set("description", Json::Text(d));
            },
            None => {
                data.unset("description");
            },
        }
    } else {
        let h = first_markdown_h1(s.as_str());
        data.set("content", Json::Text(s));
        if let Some(t) = h {
            data.set("title", Json::Text(t));
        }
    }
}

/// A file name without its extension.
pub open spec fn stem(name: Seq<char>) -> Seq<char> {
    let dot = text::rfind(name, CharClass::Is('.'));
    if dot >= 0 {
        name.take(dot)
    } else {
        name
    }
}

fn stem_of(name: &str) -> (r: String)
    ensures
        r@ == stem(name@),
{
    let n = chars_of(name);
    match rfind_in(&n, CharClass::Is('.')) {
        Some(dot) => {
            assert(n@.take(dot as int) =~= n@.subrange(0, dot as int));
            string_of(&n, 0, dot)
        },
        None => copy_text(name),
    }
}

/// The object with no members.
pub open spec fn empty_object() -> JsonView {
    JsonView::Object(Map::empty())
}

/// The data of a document that a new file makes. Its title is what the file says, or else the
/// file's name without its extension.
pub open spec fn new_data(dir: Seq<char>, name: Seq<char>, buffer: Seq<u8>) -> JsonView {
    let s = render::utf8_text(buffer);
    if dir == "Todos"@ {
        let todo = todo_of(s);
        let title = if todo.title.len() == 0 {
            stem(name)
        } else {
            todo.title
        };
        let d = empty_object().with_member("title"@, JsonView::Text(title)).with_member(
            "completed"@,
            JsonView::Bool(todo.done),
        );
        match todo.description {
            Some(t) => d.with_member("description"@, JsonView::Text(t)),
            None => d,
        }
    } else {
        let title = render::or_text(heading_in(lines_of(s), false), stem(name));
        empty_object().with_member("title"@, JsonView::Text(title)).with_member(
            "content"@,
            JsonView::Text(s),
        )
    }
}

/// The schema of the documents that a directory's files become.
pub open spec fn written_schema(dir: Seq<char>) -> Seq<char> {
    if dir == "Todos"@ {
        "data/abstraction/todo"@
    } else {
        "data/abstraction/note"@
    }
}

/// The document that a new file makes.
pub open spec fn new_document(dir: Seq<char>, name: Seq<char>, buffer: Seq<u8>) -> JsonView {
    empty_object().with_member("schema"@, JsonView::Text(written_schema(dir))).with_member(
        "data"@,
        new_data(dir, name, buffer),
    )
}

/// Makes the document of a new file.
pub fn build_new_document(dir: &str, name: &str, buffer: &[u8]) -> (r: Json)
    ensures
        r@ == new_document(dir@, name@, buffer@),
{
    let s = from_utf8_lossy(buffer);
    if same_text(dir, "Todos") {
        let (title, done, description) = parse_todo_markdown(s.as_str());
        let title = if title.as_str().is_empty() {
            stem_of(name)
        } else {
            title
        };
        let mut data = Json::object();
        data.set("title", Json::Text(title));
        data.set("completed", Json::Bool(done));
        if let Some(d) = description {
            data.set("description", Json::Text(d));
        }
        Json::object().with("schema", Json::text("data/abstraction/todo")).with("data", data)
    } else {
        let title = match first_markdown_h1(s.as_str()) {
            Some(t) => t,
            None => stem_of(name),
        };
        let mut data = Json::object();
        data.set("title", Json::Text(title));
        data.set("content", Json::Text(s));
        Json::object().with("schema", Json::text("data/abstraction/note")).with("data", data)
    }
}

} // verus!
