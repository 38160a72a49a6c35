//! Where a mount keeps what it knows, and how mounts are told apart.

use crate::api::ContextView;
use crate::json;
use crate::json::JsonView;
use crate::markdown;
use crate::name_laws;
use crate::reports;
use crate::reports::{Mount, Pong};
use crate::runtime;
use crate::saving_laws;
use crate::text;
use crate::text::CharClass;
use crate::worker;
use vstd::prelude::*;
use vstd::string::*;
use vstd::utf8::*;

verus! {

// ── names of files ───────────────────────────────────────────────────────────

/// Whether a character stands in a segment as it is.
pub open spec fn stays_in_segment(c: char) -> bool {
    name_laws::is_letter(c) || c == '-' || c == '_' || c == '.' || c == '@'
}

/// A text becomes a segment of a path character by character: what cannot stand there becomes an
/// underscore.
pub proof fn law_masked(s: Seq<char>)
    ensures
        runtime::masked(s, false).len() == s.len(),
        runtime::masked(s, true).len() == s.len(),
        forall|i: int|
            0 <= i < s.len() ==> #[trigger] runtime::masked(s, false)[i] == (if stays_in_segment(
                s[i],
            ) {
                s[i]
            } else {
                '_'
            }),
        forall|i: int|
            0 <= i < s.len() ==> #[trigger] runtime::masked(s, true)[i] == (
            if name_laws::is_letter(s[i]) {
                s[i]
            } else {
                '_'
            }),
{
}

/// A text that can stand in a path does so; one of which nothing is left is replaced.
pub proof fn law_segment(s: Seq<char>)
    ensures
        s.len() > 0 && (forall|i: int| 0 <= i < s.len() ==> stays_in_segment(#[trigger] s[i]))
            && s[0] != '.' && s[0] != '_' && s.last() != '.' && s.last() != '_'
            ==> runtime::safe_segment(s) == s,
        s.len() == 0 ==> runtime::safe_segment(s) == "default"@,
        runtime::safe_segment(s).len() > 0,
        forall|i: int|
            0 <= i < runtime::safe_segment(s).len() ==> stays_in_segment(
                #[trigger] runtime::safe_segment(s)[i],
            ),
{
    let k = CharClass::Either('.', '_');
    let m = runtime::masked(s, false);
    law_masked(s);
    text::lemma_strip_props(m, k);
    reveal_strlit("default");
    if s.len() > 0 && (forall|i: int| 0 <= i < s.len() ==> stays_in_segment(#[trigger] s[i])) {
        assert(m =~= s);
        if s[0] != '.' && s[0] != '_' && s.last() != '.' && s.last() != '_' {
            text::lemma_strip_id(s, k);
        }
    }
    if s.len() == 0 {
        text::lemma_strip_id(m, k);
    }
    let r = runtime::safe_segment(s);
    assert forall|i: int| 0 <= i < r.len() implies stays_in_segment(#[trigger] r[i]) by {
        if text::strip(m, k).len() > 0 {
            assert(m.contains(r[i]));
            let j = choose|j: int| 0 <= j < m.len() && m[j] == r[i];
            assert(m[j] == (if stays_in_segment(s[j]) {
                s[j]
            } else {
                '_'
            }));
        }
    }
}

/// The hash of some bytes starts from a fixed number and takes them in one by one.
pub proof fn law_hash(bytes: Seq<u8>, b: u8)
    ensures
        runtime::fnv(Seq::empty()) == 0xcbf29ce484222325u64,
        runtime::fnv(bytes.push(b)) as int == ((runtime::fnv(bytes) ^ (b as u64)) as int
            * 0x100000001b3) % 0x1_0000_0000_0000_0000,
{
    assert(bytes.push(b).drop_last() =~= bytes);
}

/// The number that hexadecimal digits in lower case stand for.
pub open spec fn hex_value(s: Seq<char>) -> int
    decreases s.len(),
{
    if s.len() == 0 {
        0
    } else {
        16 * hex_value(s.drop_last()) + (if s.last() <= '9' {
            s.last() as int - '0' as int
        } else {
            s.last() as int - 'a' as int + 10
        })
    }
}

/// A number is written in hexadecimal digits that stand for it, at least as many as are asked for.
pub proof fn law_hex(n: nat, width: nat)
    ensures
        hex_value(text::hex_padded(n, width)) == n,
        text::hex_padded(n, width).len() >= width,
        forall|i: int|
            0 <= i < text::hex_padded(n, width).len() ==> '0' <= #[trigger] text::hex_padded(
                n,
                width,
            )[i] <= '9' || 'a' <= text::hex_padded(n, width)[i] <= 'f',
    decreases n, width,
{
    let h = text::hex_padded(n, width);
    if n == 0 && width == 0 {
    } else {
        let w = if width == 0 {
            0
        } else {
            (width - 1) as nat
        };
        law_hex(n / 16, w);
        let f = text::hex_padded(n / 16, w);
        assert(h == f.push(text::hex_lower(n % 16)));
        assert(h.drop_last() =~= f);
        assert forall|i: int| 0 <= i < h.len() implies '0' <= #[trigger] h[i] <= '9' || 'a' <= h[i]
            <= 'f' by {
            if i < f.len() {
                assert(h[i] == f[i]);
            }
        }
    }
}

/// The record of a mount is named by its mountpoint, readable and without the slashes at its ends,
/// and by the mountpoint's hash.
pub proof fn law_state_names(mountpoint: Seq<char>)
    ensures
        runtime::state_name(mountpoint) == runtime::masked(
            text::strip(mountpoint, CharClass::Is('/')),
            true,
        ) + seq!['.'] + text::hex_padded(runtime::fnv(encode_utf8(mountpoint)) as nat, 8),
{
    reveal_strlit(".");
    assert("."@ =~= seq!['.']);
}

/// A mount of one context keeps its names by that context, wherever it is mounted; any other by
/// its mountpoint. Both stand below the remote.
pub proof fn law_data_dirs(
    remote: Seq<char>,
    ctx: Seq<char>,
    many: Seq<Seq<char>>,
    at: Seq<char>,
    other: Seq<char>,
)
    requires
        many.len() != 1,
    ensures
        runtime::data_dir(remote, seq![ctx], at) == runtime::data_dir(remote, seq![ctx], other),
        runtime::data_dir(remote, seq![ctx], at) == seq![
            ".canvas"@,
            runtime::safe_segment(remote),
            "fuse"@,
            "contexts"@,
            runtime::safe_segment(ctx),
        ],
        runtime::data_dir(remote, many, at) == seq![
            ".canvas"@,
            runtime::safe_segment(remote),
            "fuse"@,
            "mounts"@,
            runtime::safe_segment(text::strip(at, CharClass::Is('/'))) + seq!['.']
                + text::hex_padded(runtime::fnv(encode_utf8(at)) as nat, 8),
        ],
{
    reveal_strlit(".");
    assert("."@ =~= seq!['.']);
    assert(seq![ctx][0] == ctx);
    assert(runtime::data_dir(remote, seq![ctx], at) =~= seq![
        ".canvas"@,
        runtime::safe_segment(remote),
        "fuse"@,
        "contexts"@,
        runtime::safe_segment(ctx),
    ]);
    assert(runtime::data_dir(remote, many, at) =~= seq![
        ".canvas"@,
        runtime::safe_segment(remote),
        "fuse"@,
        "mounts"@,
        runtime::safe_segment(text::strip(at, CharClass::Is('/'))) + seq!['.'] + text::hex_padded(
            runtime::fnv(encode_utf8(at)) as nat,
            8,
        ),
    ]);
}

// ── the kernel's list ────────────────────────────────────────────────────────

/// Whether a text is one field: not empty, and without white space.
pub open spec fn is_field(s: Seq<char>) -> bool {
    s.len() > 0 && forall|i: int| 0 <= i < s.len() ==> !text::is_white_space(#[trigger] s[i])
}

proof fn lemma_fields_word(cur: Seq<char>, word: Seq<char>, rest: Seq<char>)
    requires
        forall|i: int| 0 <= i < word.len() ==> !text::is_white_space(#[trigger] word[i]),
    ensures
        runtime::fields_from(cur, word + rest) == runtime::fields_from(cur + word, rest),
    decreases word.len(),
{
    if word.len() == 0 {
        assert(word + rest =~= rest);
        assert(cur + word =~= cur);
    } else {
        let f = word.drop_first();
        assert(forall|i: int| 0 <= i < f.len() ==> f[i] == word[i + 1]);
        assert(!text::is_white_space(word[0]));
        assert((word + rest)[0] == word[0]);
        assert((word + rest).skip(1) =~= f + rest);
        lemma_fields_word(cur.push(word[0]), f, rest);
        assert(cur.push(word[0]) + f =~= cur + word);
    }
}

/// A line is split at its white space: a field stands before what the rest of the line has, and
/// white space in front does not matter.
pub proof fn law_fields(word: Seq<char>, gap: char, rest: Seq<char>)
    requires
        is_field(word),
        text::is_white_space(gap),
    ensures
        runtime::fields(word + seq![gap] + rest) == seq![word] + runtime::fields(rest),
        runtime::fields(seq![gap] + rest) == runtime::fields(rest),
        runtime::fields(word) == seq![word],
        runtime::fields(Seq::empty()) == Seq::<Seq<char>>::empty(),
{
    let e = Seq::<char>::empty();
    let tail = seq![gap] + rest;
    assert(word + seq![gap] + rest =~= word + tail);
    lemma_fields_word(e, word, tail);
    assert(e + word =~= word);
    assert(tail[0] == gap);
    assert(tail.skip(1) =~= rest);
    assert(runtime::fields_from(word, tail) == seq![word] + runtime::fields_from(e, rest));
    assert(Seq::<Seq<char>>::empty() + runtime::fields(rest) =~= runtime::fields(rest));
    lemma_fields_word(e, word, e);
    assert(word + e =~= word);
}

/// Spaces are escaped in the kernel's list, and nothing else is.
pub proof fn law_escaped(a: Seq<char>, b: Seq<char>, c: char)
    ensures
        runtime::escaped(a + b) == runtime::escaped(a) + runtime::escaped(b),
        c != ' ' ==> runtime::escaped(seq![c]) == seq![c],
        runtime::escaped(seq![' ']) == seq!['\\', '0', '4', '0'],
    decreases b.len(),
{
    reveal_strlit("\\040");
    assert(seq![c].drop_last() =~= Seq::empty());
    assert(seq![' '].drop_last() =~= Seq::empty());
    assert(runtime::escaped(Seq::empty()) =~= Seq::empty());
    assert(Seq::<char>::empty().push(c) =~= seq![c]);
    assert(Seq::<char>::empty() + "\\040"@ =~= seq!['\\', '0', '4', '0']);
    if b.len() == 0 {
        assert(a + b =~= a);
        assert(runtime::escaped(a) + runtime::escaped(b) =~= runtime::escaped(a));
    } else {
        law_escaped(a, b.drop_last(), c);
        assert((a + b).drop_last() =~= a + b.drop_last());
        assert((a + b).last() == b.last());
        let x = runtime::escaped(a);
        let y = runtime::escaped(b.drop_last());
        assert(x + y.push(b.last()) =~= (x + y).push(b.last()));
        assert(x + (y + "\\040"@) =~= (x + y) + "\\040"@);
    }
}

/// A line of the kernel's list is that of a mount exactly where its second field is the mountpoint,
/// with its spaces escaped, and its third names this file system; it is that of no other one. A
/// mount is found wherever such a line stands.
pub proof fn law_mounts_are_found(
    dev: Seq<char>,
    at: Seq<char>,
    kind: Seq<char>,
    rest: Seq<char>,
    before: Seq<char>,
    after: Seq<char>,
)
    requires
        is_field(dev),
        is_field(runtime::escaped(at)),
        is_field(kind),
        saving_laws::one_line(before),
        saving_laws::one_line(dev + seq![' '] + runtime::escaped(at) + seq![' '] + kind + seq![' '] + rest),
    ensures
        ({
            let line = dev + seq![' '] + runtime::escaped(at) + seq![' '] + kind + seq![' '] + rest;
            &&& runtime::lists_mount(line, at) <==> kind.len() >= 11 && kind.take(11)
                == "fuse.canvas"@
            &&& forall|other: Seq<char>|
                runtime::escaped(other) != runtime::escaped(at) ==> !#[trigger] runtime::lists_mount(
                    line,
                    other,
                )
            &&& runtime::lists_mount(line, at) ==> runtime::has_mount(
                before + seq!['\n'] + (line + seq!['\n'] + after),
                at,
            )
        }),
{
    let mp = runtime::escaped(at);
    let line = dev + seq![' '] + mp + seq![' '] + kind + seq![' '] + rest;
    let r2 = kind + seq![' '] + rest;
    let r1 = mp + seq![' '] + r2;
    assert(line =~= dev + seq![' '] + r1);
    law_fields(dev, ' ', r1);
    law_fields(mp, ' ', r2);
    law_fields(kind, ' ', rest);
    let f = runtime::fields(line);
    assert(f =~= seq![dev] + (seq![mp] + (seq![kind] + runtime::fields(rest))));
    assert(f[1] == mp && f[2] == kind);
    reveal_strlit("fuse.canvas");
    let inner = line + seq!['\n'] + after;
    let all = before + seq!['\n'] + inner;
    saving_laws::law_lines(before, inner);
    saving_laws::law_lines(line, after);
    let ls = markdown::lines_of(all);
    assert(ls =~= seq![before] + (seq![line] + markdown::lines_of(after)));
    assert(ls[1] == line);
}

// ── how mounts are ───────────────────────────────────────────────────────────

/// A mount is well where its process runs and the kernel has it; it is broken where the kernel
/// does not have it, orphaned where no process serves it, and stale where there is neither.
pub proof fn law_health()
    ensures
        runtime::health(true, true) == "ok"@,
        runtime::health(true, false) == "broken"@,
        runtime::health(false, true) == "orphaned"@,
        runtime::health(false, false) == "stale"@,
{
}

/// A text is filled with spaces behind it, up to a width, and is never cut.
pub proof fn law_padded(s: Seq<char>, width: nat)
    ensures
        runtime::padded(s, width).len() == (if s.len() < width {
            width
        } else {
            s.len()
        }),
        runtime::padded(s, width).take(s.len() as int) == s,
        forall|i: int|
            s.len() <= i < runtime::padded(s, width).len() ==> #[trigger] runtime::padded(
                s,
                width,
            )[i] == ' ',
    decreases width - s.len(),
{
    let p = runtime::padded(s, width);
    if s.len() < width {
        law_padded(s.push(' '), width);
        assert(p.take(s.len() as int) =~= s) by {
            assert(p.take(s.len() as int + 1) == s.push(' '));
            assert(forall|i: int|
                0 <= i < s.len() ==> p[i] == #[trigger] p.take(s.len() as int + 1)[i]);
        }
        assert forall|i: int| s.len() <= i < p.len() implies #[trigger] p[i] == ' ' by {
            if i == s.len() {
                assert(p.take(s.len() as int + 1)[i] == ' ');
            }
        }
    } else {
        assert(p.take(s.len() as int) =~= s);
    }
}

/// Texts are listed in order with a comma between each two.
pub proof fn law_comma_list(a: Seq<Seq<char>>, s: Seq<char>)
    ensures
        runtime::comma_list(Seq::empty()) == Seq::<char>::empty(),
        runtime::comma_list(seq![s]) == s,
        a.len() > 0 ==> runtime::comma_list(a.push(s)) == runtime::comma_list(a) + seq![','] + s,
{
    reveal_strlit(",");
    assert(","@ =~= seq![',']);
    assert(a.push(s).drop_last() =~= a);
}

/// What a machine is told of a mount is what is known of it, each under its own name.
pub proof fn law_mount_entries(m: Mount)
    ensures
        m.entry() is Object,
        m.entry().says("mountpoint"@, m.state.mountpoint@),
        m.entry().says("server"@, m.state.server@),
        m.entry()->Object_0["pid"@] == JsonView::Number(json::number_from(m.state.pid as u64)),
        m.entry()->Object_0["alive"@] == JsonView::Bool(m.alive),
        m.entry()->Object_0["mounted"@] == JsonView::Bool(m.mounted),
        m.entry().says("status"@, runtime::health(m.alive, m.mounted)),
        m.entry().says("startedAt"@, m.state.started_at@),
        m.state.log_file is Some ==> m.entry().says("logFile"@, m.state.log_file->0@),
        m.state.log_file is None ==> m.entry()->Object_0["logFile"@] == JsonView::Null,
        m.state.contexts is None ==> m.entry()->Object_0["contexts"@] == JsonView::Null,
        m.state.contexts is Some ==> m.entry()->Object_0["contexts"@] is Array
            && m.entry()->Object_0["contexts"@]->Array_0.len() == m.state.contexts->0@.len()
            && forall|i: int|
            0 <= i < m.state.contexts->0@.len() ==> #[trigger] m.entry()->Object_0["contexts"@]->Array_0[i]
                == JsonView::Text(m.state.contexts->0@[i]@),
{
    reveal_strlit("mountpoint");
    reveal_strlit("server");
    reveal_strlit("pid");
    reveal_strlit("alive");
    reveal_strlit("mounted");
    reveal_strlit("status");
    reveal_strlit("startedAt");
    reveal_strlit("contexts");
    reveal_strlit("logFile");
    assert("mountpoint"@.len() == 10 && "server"@.len() == 6 && "pid"@.len() == 3 && "alive"@.len()
        == 5 && "mounted"@.len() == 7 && "status"@.len() == 6 && "startedAt"@.len() == 9
        && "contexts"@.len() == 8 && "logFile"@.len() == 7);
    assert("server"@[1] == 'e' && "status"@[1] == 't' && "mounted"@[0] == 'm' && "logFile"@[0]
        == 'l');
}

/// The list of the mounts has one entry, and one line, for each of them, in their order; without a
/// mount it says so.
pub proof fn law_each_mount_is_listed(s: Seq<Mount>, i: int)
    requires
        0 <= i < s.len(),
    ensures
        reports::entries(s) is Array && reports::entries(s)->Array_0.len() == s.len(),
        reports::entries(s)->Array_0[i] == s[i].entry(),
        reports::status_text(s).len() == s.len(),
        reports::status_text(s)[i] == s[i].state.line(s[i].alive, s[i].mounted),
        reports::status_text(Seq::empty()) == seq!["no canvas mounts"@],
{
}

/// What a machine is told of a server is what the server said of itself, and whether it took the
/// token: the contexts are counted where it did.
pub proof fn law_server_entries(p: Pong, contexts: Result<u64, String>)
    ensures
        p.entry(contexts) is Object,
        p.entry(contexts).says("server"@, p.server@),
        p.entry(contexts).says("source"@, p.source@),
        p.entry(contexts)->Object_0["reachable"@] == JsonView::Bool(true),
        p.entry(contexts)->Object_0["rttMs"@] == JsonView::Number(json::number_from(p.millis)),
        p.entry(contexts)->Object_0["auth"@] == JsonView::Bool(contexts is Ok),
        contexts is Ok ==> p.entry(contexts)->Object_0["contexts"@] == JsonView::Number(
            json::number_from(contexts->Ok_0),
        ),
        contexts is Err ==> p.entry(contexts)->Object_0["contexts"@] == JsonView::Null,
        forall|v: Seq<char>| #[trigger]
            p.payload@.says("version"@, v) ==> p.entry(contexts).says("version"@, v),
        forall|v: Seq<char>| #[trigger]
            p.payload@.says("appName"@, v) ==> p.entry(contexts).says("appName"@, v),
{
    reveal_strlit("server");
    reveal_strlit("reachable");
    reveal_strlit("rttMs");
    reveal_strlit("version");
    reveal_strlit("appName");
    reveal_strlit("auth");
    reveal_strlit("contexts");
    reveal_strlit("source");
    assert("server"@.len() == 6 && "reachable"@.len() == 9 && "rttMs"@.len() == 5
        && "version"@.len() == 7 && "appName"@.len() == 7 && "auth"@.len() == 4
        && "contexts"@.len() == 8 && "source"@.len() == 6);
    assert("server"@[1] == 'e' && "source"@[1] == 'o' && "version"@[0] == 'v' && "appName"@[0]
        == 'a');
}

/// The line of a server that answered names it, its version and how the token was found; and the
/// line on the token says whether it was taken.
pub proof fn law_server_lines(p: Pong, version: Seq<char>, app: Seq<char>, n: u64, e: String)
    requires
        p.payload@.says("version"@, version),
        p.payload@.says("appName"@, app),
    ensures
        p.line() == p.server@ + ": "@ + app + " v"@ + version + " ("@ + text::decimal(
            p.millis as nat,
        ) + " ms)"@,
        p.greeting() == "server "@ + p.server@ + " (v"@ + version + ", "@ + text::decimal(
            p.millis as nat,
        ) + " ms, auth via "@ + p.source@ + ")"@,
        p.access_line(Ok(n)) == "auth ok ("@ + p.source@ + ", "@ + text::decimal(n as nat)
            + " contexts accessible)"@,
        p.access_line(Err(e)) == "auth FAILED ("@ + p.source@ + "): "@ + e@,
{
}

/// The line of a mount tells its state, in a column of its own, where it is, its process, its
/// server and since when it runs, and the contexts that it was limited to.
pub proof fn law_mount_lines(m: Mount)
    ensures
        ({
            let s = m.state;
            let line = s.line(m.alive, m.mounted);
            let all = runtime::padded(runtime::health(m.alive, m.mounted), 8) + "  "@
                + s.mountpoint@ + "  pid "@ + text::decimal(s.pid as nat) + "  "@ + s.server@
                + "  since "@ + s.started_at@;
            &&& s.contexts is None ==> line == all
            &&& s.contexts is Some ==> line == all + "  contexts: "@ + runtime::comma_list(
                worker::option_texts(s.contexts)->0,
            )
        }),
{
    let s = m.state;
    let all = runtime::padded(runtime::health(m.alive, m.mounted), 8) + "  "@ + s.mountpoint@
        + "  pid "@ + text::decimal(s.pid as nat) + "  "@ + s.server@ + "  since "@ + s.started_at@;
    assert(all + Seq::<char>::empty() =~= all);
    if s.contexts is Some {
        let c = "  contexts: "@;
        let l = runtime::comma_list(worker::option_texts(s.contexts)->0);
        assert(all + (c + l) =~= all + c + l);
    }
}

/// The list of the contexts has the object of each of them, in their order.
pub proof fn law_each_context_is_listed(s: Seq<ContextView>, i: int)
    requires
        0 <= i < s.len(),
    ensures
        reports::raw_contexts(s) is Array && reports::raw_contexts(s)->Array_0.len() == s.len(),
        reports::raw_contexts(s)->Array_0[i] == s[i].raw,
{
}

} // verus!
