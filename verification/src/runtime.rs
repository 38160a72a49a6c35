//! What is known of mounts across invocations.

use crate::api;
use crate::markdown;
use crate::markdown::lines_in;
use crate::render;
use crate::render::{bytes_of, is_alphanumeric};
use crate::text;
use crate::text::{
    chars_of, copy_text, decimal_text, hex_text, matches_at, same_chars, stripped, text_of,
    CharClass,
};
use vstd::prelude::*;
use vstd::string::*;
use vstd::utf8::*;
use vstd::wrapping::*;

verus! {

/// A mount that runs, or that crashed.
#[derive(Debug)]
pub struct MountState {
    pub mountpoint: String,
    pub server: String,
    pub pid: u32,
    pub started_at: String,
    pub contexts: Option<Vec<String>>,
    pub log_file: Option<String>,
}

/// How a mount is made.
pub struct MountOptions {
    pub server: String,
    pub token: String,
    pub mountpoint: String,
    pub data_dir: String,
    pub enable_ws: bool,
    pub resync_secs: u64,
    /// The contexts that are shown; all that are accessible where there is no list
    pub contexts: Option<Vec<String>>,
    /// The context whose directories stand at the top of the mount, where it shows only one
    pub context_root: Option<String>,
    /// How many bytes of blobs may be cached
    pub blob_cache_bytes: usize,
}

// ── names of files ───────────────────────────────────────────────────────────

/// Whether a character may stand in a segment.
pub open spec fn segment_keeps(c: char) -> bool {
    render::alphanumeric(c) || c == '-' || c == '_' || c == '.' || c == '@'
}

/// A text with every character but some replaced.
pub open spec fn masked(s: Seq<char>, words_only: bool) -> Seq<char> {
    Seq::new(
        s.len(),
        |i: int|
            if (words_only && render::alphanumeric(s[i])) || (!words_only && segment_keeps(s[i])) {
                s[i]
            } else {
                '_'
            },
    )
}

/// A text as one segment of a path.
pub open spec fn safe_segment(s: Seq<char>) -> Seq<char> {
    let t = text::strip(masked(s, false), CharClass::Either('.', '_'));
    if t.len() == 0 {
        "default"@
    } else {
        t
    }
}

fn masked_chars(s: &Vec<char>, words_only: bool) -> (r: Vec<char>)
    ensures
        r@ == masked(s@, words_only),
{
    let mut out: Vec<char> = Vec::new();
    let mut i: usize = 0;
    while i < s.len()
        invariant
            i <= s@.len(),
            out@.len() == i,
            forall|j: int| 0 <= j < i ==> #[trigger] out@[j] == masked(s@, words_only)[j],
        decreases s@.len() - i,
    {
        let c = s[i];
        let keep = if words_only {
            is_alphanumeric(c)
        } else {
            is_alphanumeric(c) || c == '-' || c == '_' || c == '.' || c == '@'
        };
        out.push(
            if keep {
                c
            } else {
                '_'
            },
        );
        i = i + 1;
    }
    assert(out@ =~= masked(s@, words_only));
    out
}

/// Makes one segment of a path of a text.
pub fn sanitize_segment(s: &str) -> (r: String)
    ensures
        r@ == safe_segment(s@),
{
    let t = stripped(&masked_chars(&chars_of(s), false), CharClass::Either('.', '_'));
    if t.len() == 0 {
        copy_text("default")
    } else {
        text_of(&t)
    }
}

/// One step of the FNV-1a hash.
pub open spec fn fnv_step(hash: u64, b: u8) -> u64 {
    u64_specs::wrapping_mul(hash ^ (b as u64), 0x100000001b3)
}

/// The FNV-1a hash of some bytes.
pub open spec fn fnv(bytes: Seq<u8>) -> u64
    decreases bytes.len(),
{
    if bytes.len() == 0 {
        0xcbf29ce484222325
    } else {
        fnv_step(fnv(bytes.drop_last()), bytes.last())
    }
}

/// Hashes a text.
pub fn fnv_hash(s: &str) -> (r: u64)
    ensures
        r == fnv(encode_utf8(s@)),
{
    let bytes = bytes_of(s);
    let mut hash: u64 = 0xcbf29ce484222325;
    let n = bytes.len();
    let mut i: usize = 0;
    assert(bytes@.take(0) =~= Seq::empty());
    while i < n
        invariant
            n == bytes@.len(),
            i <= n,
            hash == fnv(bytes@.take(i as int)),
        decreases n - i,
    {
        proof {
            assert(bytes@.take(i + 1).drop_last() =~= bytes@.take(i as int));
        }
        let x: u64 = hash ^ (bytes[i] as u64);
        hash = x.wrapping_mul(0x100000001b3);
        i = i + 1;
    }
    assert(bytes@.take(n as int) =~= bytes@);
    hash
}

/// The hash of a mountpoint, as it stands in names.
pub open spec fn hash_text(mountpoint: Seq<char>) -> Seq<char> {
    text::hex_padded(fnv(encode_utf8(mountpoint)) as nat, 8)
}

/// The name of the file that keeps the state of a mount, without its extension: readable, and
/// with a hash, since different mountpoints can read the same.
pub open spec fn state_name(mountpoint: Seq<char>) -> Seq<char> {
    masked(text::strip(mountpoint, CharClass::Is('/')), true) + "."@ + hash_text(mountpoint)
}

fn state_stem(mountpoint: &str) -> (r: String)
    ensures
        r@ == state_name(mountpoint@),
{
    let bare = stripped(&chars_of(mountpoint), CharClass::Is('/'));
    let mut out = text_of(&masked_chars(&bare, true));
    out.append(".");
    out.append(hex_text(fnv_hash(mountpoint), 8).as_str());
    out
}

/// The name of the file that keeps the state of a mount.
pub fn state_file_for(mountpoint: &str) -> (r: String)
    ensures
        r@ == state_name(mountpoint@) + ".json"@,
{
    let mut out = state_stem(mountpoint);
    out.append(".json");
    out
}

/// The name of the file that a mount in the background logs to.
pub fn default_log_file(mountpoint: &str) -> (r: String)
    ensures
        r@ == state_name(mountpoint@) + ".log"@,
{
    let mut out = state_stem(mountpoint);
    out.append(".log");
    out
}

/// Where below the home directory a mount keeps its names: by context where it shows one, so that
/// names survive a mount elsewhere, and else by mountpoint.
pub open spec fn data_dir(
    remote: Seq<char>,
    contexts: Seq<Seq<char>>,
    mountpoint: Seq<char>,
) -> Seq<Seq<char>> {
    let base = seq![".canvas"@, safe_segment(remote), "fuse"@];
    if contexts.len() == 1 {
        base.push("contexts"@).push(safe_segment(contexts[0]))
    } else {
        base.push("mounts"@).push(
            safe_segment(text::strip(mountpoint, CharClass::Is('/'))) + "."@ + hash_text(
                mountpoint,
            ),
        )
    }
}

/// Works out where below the home directory a mount keeps its names.
pub fn mount_data_dir(remote: &str, contexts: &[String], mountpoint: &str) -> (r: Vec<String>)
    ensures
        api::texts(r@) == data_dir(remote@, api::texts(contexts@), mountpoint@),
{
    let mut out: Vec<String> = Vec::new();
    out.push(copy_text(".canvas"));
    out.push(sanitize_segment(remote));
    out.push(copy_text("fuse"));
    if contexts.len() == 1 {
        out.push(copy_text("contexts"));
        out.push(sanitize_segment(contexts[0].as_str()));
    } else {
        out.push(copy_text("mounts"));
        let bare = stripped(&chars_of(mountpoint), CharClass::Is('/'));
        let mut name = sanitize_segment(text_of(&bare).as_str());
        name.append(".");
        name.append(hex_text(fnv_hash(mountpoint), 8).as_str());
        out.push(name);
    }
    assert(api::texts(out@) =~= data_dir(remote@, api::texts(contexts@), mountpoint@));
    out
}

// ── which mounts there are ───────────────────────────────────────────────────

/// The fields of a line, after some characters of the first one.
pub open spec fn fields_from(cur: Seq<char>, s: Seq<char>) -> Seq<Seq<char>>
    decreases s.len(),
{
    let here = if cur.len() == 0 {
        Seq::empty()
    } else {
        seq![cur]
    };
    if s.len() == 0 {
        here
    } else if text::is_white_space(s[0]) {
        here + fields_from(Seq::empty(), s.skip(1))
    } else {
        fields_from(cur.push(s[0]), s.skip(1))
    }
}

/// The fields of a line.
pub open spec fn fields(line: Seq<char>) -> Seq<Seq<char>> {
    fields_from(Seq::empty(), line)
}

/// A mountpoint as the kernel lists it, with its spaces escaped.
pub open spec fn escaped(s: Seq<char>) -> Seq<char>
    decreases s.len(),
{
    if s.len() == 0 {
        Seq::empty()
    } else if s.last() == ' ' {
        escaped(s.drop_last()) + "\\040"@
    } else {
        escaped(s.drop_last()).push(s.last())
    }
}

/// Whether a line of the kernel's list is that of a mount of ours at a mountpoint.
pub open spec fn lists_mount(line: Seq<char>, mountpoint: Seq<char>) -> bool {
    let f = fields(line);
    f.len() >= 3 && f[1] == escaped(mountpoint) && text::starts_with(f[2], "fuse.canvas"@)
}

fn split_fields(s: &Vec<char>) -> (r: Vec<Vec<char>>)
    ensures
        markdown::line_views(r@) == fields(s@),
{
    let mut out: Vec<Vec<char>> = Vec::new();
    let mut cur: Vec<char> = Vec::new();
    let n = s.len();
    let mut i: usize = 0;
    proof {
        assert(s@.skip(0) =~= s@);
        assert(cur@ =~= Seq::empty());
        assert(markdown::line_views(out@) + fields(s@) =~= fields(s@));
    }
    while i < n
        invariant
            n == s@.len(),
            i <= n,
            markdown::line_views(out@) + fields_from(cur@, s@.skip(i as int)) == fields(s@),
        decreases n - i,
    {
        let ghost o = markdown::line_views(out@);
        let ghost c0 = cur@;
        proof {
            assert(s@.skip(i as int).skip(1) =~= s@.skip(i + 1));
        }
        if text::white_space(s[i]) {
            if cur.len() > 0 {
                out.push(cur);
                cur = Vec::new();
                proof {
                    assert(cur@ =~= Seq::empty());
                    assert(markdown::line_views(out@) =~= o.push(c0));
                    assert(o + (seq![c0] + fields_from(Seq::empty(), s@.skip(i + 1))) =~= o.push(c0)
                        + fields_from(Seq::empty(), s@.skip(i + 1)));
                }
            } else {
                proof {
                    assert(cur@ =~= Seq::empty());
                    assert(Seq::<Seq<char>>::empty() + fields_from(
                        Seq::empty(),
                        s@.skip(i + 1),
                    ) =~= fields_from(Seq::empty(), s@.skip(i + 1)));
                }
            }
        } else {
            cur.push(s[i]);
        }
        i = i + 1;
    }
    let ghost o = markdown::line_views(out@);
    let ghost c0 = cur@;
    if cur.len() > 0 {
        out.push(cur);
        assert(markdown::line_views(out@) =~= o + seq![c0]);
    } else {
        assert(o + Seq::<Seq<char>>::empty() =~= o);
    }
    out
}

fn escape(s: &str) -> (r: Vec<char>)
    ensures
        r@ == escaped(s@),
{
    let c = chars_of(s);
    let mut out: Vec<char> = Vec::new();
    let n = c.len();
    let mut i: usize = 0;
    assert(out@ =~= escaped(c@.take(0)));
    while i < n
        invariant
            n == c@.len(),
            i <= n,
            out@ == escaped(c@.take(i as int)),
        decreases n - i,
    {
        let ghost o = out@;
        proof {
            assert(c@.take(i + 1).drop_last() =~= c@.take(i as int));
        }
        if c[i] == ' ' {
            out.push('\\');
            out.push('0');
            out.push('4');
            out.push('0');
            proof {
                reveal_strlit("\\040");
                assert(out@ =~= o + "\\040"@);
            }
        } else {
            out.push(c[i]);
        }
        i = i + 1;
    }
    assert(c@.take(n as int) =~= c@);
    out
}

/// Whether the kernel's list of mounts has one of ours at a mountpoint.
pub open spec fn has_mount(mounts: Seq<char>, mountpoint: Seq<char>) -> bool {
    exists|i: int|
        0 <= i < markdown::lines_of(mounts).len() && lists_mount(
            #[trigger] markdown::lines_of(mounts)[i],
            mountpoint,
        )
}

/// Looks for a mount of ours in the kernel's list.
pub fn is_mounted(mounts: &str, mountpoint: &str) -> (r: bool)
    ensures
        r == has_mount(mounts@, mountpoint@),
{
    let lines = lines_in(&chars_of(mounts));
    let ghost all = markdown::lines_of(mounts@);
    let wanted = escape(mountpoint);
    let kind = chars_of("fuse.canvas");
    let n = lines.len();
    let mut i: usize = 0;
    while i < n
        invariant
            n == lines@.len(),
            i <= n,
            all == markdown::line_views(lines@),
            all == markdown::lines_of(mounts@),
            wanted@ == escaped(mountpoint@),
            kind@ == "fuse.canvas"@,
            forall|j: int| 0 <= j < i ==> !lists_mount(#[trigger] all[j], mountpoint@),
        decreases n - i,
    {
        let f = split_fields(&lines[i]);
        assert(all[i as int] == lines@[i as int]@);
        if f.len() >= 3 {
            proof {
                assert(markdown::line_views(f@)[1] == f@[1]@);
                assert(markdown::line_views(f@)[2] == f@[2]@);
                assert(f@[2]@.skip(0) =~= f@[2]@);
            }
            if same_chars(&f[1], &wanted) && matches_at(&f[2], 0, &kind) {
                assert(lists_mount(markdown::lines_of(mounts@)[i as int], mountpoint@));
                return true;
            }
        }
        i = i + 1;
    }
    false
}

// ── reports ──────────────────────────────────────────────────────────────────

/// How a mount is: its process runs or not, and the kernel has it or not.
pub open spec fn health(alive: bool, mounted: bool) -> Seq<char> {
    if alive && mounted {
        "ok"@
    } else if alive {
        "broken"@
    } else if mounted {
        "orphaned"@
    } else {
        "stale"@
    }
}

/// How a mount is, in one word.
pub fn health_word(alive: bool, mounted: bool) -> (r: &'static str)
    ensures
        r@ == health(alive, mounted),
{
    match (alive, mounted) {
        (true, true) => "ok",
        (true, false) => "broken",
        (false, true) => "orphaned",
        (false, false) => "stale",
    }
}

/// A text filled with spaces to a width.
pub open spec fn padded(s: Seq<char>, width: nat) -> Seq<char>
    decreases width - s.len(),
{
    if s.len() < width {
        padded(s.push(' '), width)
    } else {
        s
    }
}

/// How a mount is, in one word of eight characters.
pub fn status_word(alive: bool, mounted: bool) -> (r: &'static str)
    ensures
        r@ == padded(health(alive, mounted), 8),
{
    proof {
        reveal_strlit("ok");
        reveal_strlit("broken");
        reveal_strlit("orphaned");
        reveal_strlit("stale");
        reveal_strlit("ok      ");
        reveal_strlit("broken  ");
        reveal_strlit("stale   ");
        reveal_with_fuel(padded, 7);
        assert("ok      "@ =~= padded("ok"@, 8));
        assert("broken  "@ =~= padded("broken"@, 8));
        assert("orphaned"@ =~= padded("orphaned"@, 8));
        assert("stale   "@ =~= padded("stale"@, 8));
    }
    match (alive, mounted) {
        (true, true) => "ok      ",
        (true, false) => "broken  ",
        (false, true) => "orphaned",
        (false, false) => "stale   ",
    }
}

/// Whether what is known of a mount is a leftover of a crash.
pub fn is_leftover(alive: bool, mounted: bool) -> (r: bool)
    ensures
        r == (health(alive, mounted) == "stale"@),
{
    proof {
        reveal_strlit("ok");
        reveal_strlit("broken");
        reveal_strlit("orphaned");
        reveal_strlit("stale");
        assert("ok"@.len() == 2 && "broken"@.len() == 6 && "orphaned"@.len() == 8);
    }
    !alive && !mounted
}

/// Texts joined by commas without spaces.
pub open spec fn comma_list(s: Seq<Seq<char>>) -> Seq<char>
    decreases s.len(),
{
    if s.len() == 0 {
        Seq::empty()
    } else if s.len() == 1 {
        s[0]
    } else {
        comma_list(s.drop_last()) + ","@ + s.last()
    }
}

fn comma_text(v: &Vec<String>) -> (r: String)
    ensures
        r@ == comma_list(api::texts(v@)),
{
    let ghost all = api::texts(v@);
    let mut out = String::new();
    let n = v.len();
    let mut i: usize = 0;
    assert(out@ =~= comma_list(all.take(0)));
    while i < n
        invariant
            n == v@.len(),
            i <= n,
            all == api::texts(v@),
            out@ == comma_list(all.take(i as int)),
        decreases n - i,
    {
        proof {
            assert(all.take(i + 1).drop_last() =~= all.take(i as int));
        }
        if i > 0 {
            out.append(",");
        }
        out.append(v[i].as_str());
        proof {
            if i == 0 {
                assert(out@ =~= all[0]);
                assert(all.take(1)[0] == all[0]);
            }
        }
        i = i + 1;
    }
    assert(all.take(n as int) =~= all);
    out
}

impl MountState {
    /// The line that a report has for a mount.
    pub open spec fn line(&self, alive: bool, mounted: bool) -> Seq<char> {
        padded(health(alive, mounted), 8) + "  "@ + self.mountpoint@ + "  pid "@ + text::decimal(
            self.pid as nat,
        ) + "  "@ + self.server@ + "  since "@ + self.started_at@ + (match self.contexts {
            Some(c) => "  contexts: "@ + comma_list(api::texts(c@)),
            None => Seq::empty(),
        })
    }

    /// Makes the line that a report has for a mount.
    pub fn report(&self, alive: bool, mounted: bool) -> (r: String)
        ensures
            r@ == self.line(alive, mounted),
    {
        let mut out = copy_text(status_word(alive, mounted));
        out.append("  ");
        out.append(self.mountpoint.as_str());
        out.append("  pid ");
        out.append(decimal_text(self.pid as u64).as_str());
        out.append("  ");
        out.append(self.server.as_str());
        out.append("  since ");
        out.append(self.started_at.as_str());
        match &self.contexts {
            Some(c) => {
                let ghost o = out@;
                out.append("  contexts: ");
                out.append(comma_text(c).as_str());
                assert(out@ =~= o + ("  contexts: "@ + comma_list(api::texts(c@))));
            },
            None => {
                assert(out@ =~= out@ + Seq::<char>::empty());
            },
        }
        out
    }

    /// Why a mount is refused: another one is alive at its mountpoint.
    pub fn conflict(&self, alive: bool, mounted: bool) -> (r: Option<String>)
        ensures
            (match r {
                Some(m) => alive && mounted && m@ == self.mountpoint@ + " is already mounted by pid "@
                    + text::decimal(self.pid as nat) + " (canvas-fuse unmount first)"@,
                None => !(alive && mounted),
            }),
    {
        if alive && mounted {
            let mut out = copy_text(self.mountpoint.as_str());
            out.append(" is already mounted by pid ");
            out.append(decimal_text(self.pid as u64).as_str());
            out.append(" (canvas-fuse unmount first)");
            Some(out)
        } else {
            None
        }
    }
}

} // verus!
