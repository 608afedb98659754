//! Where the snapshot of an upgrade handoff is staged.
//!
//! A RAM-backed directory saves the disk I/O, but its pages are RAM: it is chosen only
//! where the snapshot and a headroom fit in the RAM that is free.
use vstd::prelude::*;
use vstd::slice::slice_subrange;
use vstd::string::*;
use crate::bytes::{bytes_text, push_bytes, text_of};
use crate::text::{after_prefix, chars_of, copy_str, cut_lit, cut_prefix, decimal, is_digit, is_space,
    is_text, law_prefix_is_cut_off, law_space_parts_words, lemma_decimal_round_trip,
    lemma_decimal_value, lines, lines_of, parse_unsigned, pieces, same_chars, string_of, unsigned_of,
    words, words_of};

verus! {

/// Where the handoff snapshot is staged.
#[derive(Debug, Clone, PartialEq, Eq)]
pub enum HandoffTarget {
    /// A RAM-backed directory.
    Tmpfs(String),
    /// The durable data directory.
    DataDir,
}

/// The RAM-backed mount that is used by default.
pub const DEFAULT_TMPFS_DIR: &'static str = "/dev/shm";

/// The name of the staging directory. The old and the new process meet there.
pub const HANDOFF_SUBDIR: &'static str = "ironcache-handoff";

/// The headroom that is kept free at least: 512 MiB.
pub const HEADROOM_FLOOR_BYTES: u64 = 512 * 1024 * 1024;

/// `name` below the directory `base`.
pub open spec fn path_below(base: Seq<char>, name: Seq<char>) -> Seq<char> {
    if base.len() == 0 || base.last() == '/' {
        base + name
    } else {
        base + seq!['/'] + name
    }
}

/// Joins a directory and a relative name.
pub fn join_path(base: &str, name: &str) -> (r: String)
    ensures
        r@ == path_below(base@, name@),
{
    let chars = chars_of(base);
    let n: usize = chars.len();
    let mut r: String = copy_str(base);
    if n > 0 && chars[n - 1] != '/' {
        r.push('/');
        assert(r@ =~= base@ + seq!['/']);
    }
    r.append(name);
    r
}

/// The staging directory below a mount.
pub fn handoff_staging_dir(base: &str) -> (r: String)
    ensures
        r@ == path_below(base@, HANDOFF_SUBDIR@),
{
    join_path(base, HANDOFF_SUBDIR)
}

/// The headroom for a snapshot: a quarter of it, and at least the floor.
pub open spec fn headroom(snapshot: u64) -> u64 {
    if snapshot / 4 > HEADROOM_FLOOR_BYTES {
        snapshot / 4
    } else {
        HEADROOM_FLOOR_BYTES
    }
}

/// The RAM that must stay free above the snapshot.
pub fn headroom_for(snapshot_bytes: u64) -> (r: u64)
    ensures
        r == headroom(snapshot_bytes),
{
    if snapshot_bytes / 4 > HEADROOM_FLOOR_BYTES {
        snapshot_bytes / 4
    } else {
        HEADROOM_FLOOR_BYTES
    }
}

/// Whether a snapshot and its headroom fit in the free RAM, where that is known.
pub open spec fn fits_in_ram(snapshot: u64, available: Option<u64>, headroom: u64) -> bool {
    available is Some && snapshot + headroom <= available->0
}

/// Chooses the staging target: RAM only where the snapshot and the headroom fit in
/// the RAM that is known to be free.
pub fn handoff_target(
    snapshot_bytes: u64,
    available_ram_bytes: Option<u64>,
    headroom_bytes: u64,
    tmpfs_dir: &str,
) -> (r: HandoffTarget)
    ensures
        match r {
            HandoffTarget::Tmpfs(d) => fits_in_ram(
                snapshot_bytes,
                available_ram_bytes,
                headroom_bytes,
            ) && d@ == path_below(tmpfs_dir@, HANDOFF_SUBDIR@),
            HandoffTarget::DataDir => !fits_in_ram(
                snapshot_bytes,
                available_ram_bytes,
                headroom_bytes,
            ),
        },
{
    let avail: u64 = match available_ram_bytes {
        Some(a) => a,
        None => {
            return HandoffTarget::DataDir;
        },
    };
    match snapshot_bytes.checked_add(headroom_bytes) {
        Some(need) => if need <= avail {
            HandoffTarget::Tmpfs(handoff_staging_dir(tmpfs_dir))
        } else {
            HandoffTarget::DataDir
        },
        None => HandoffTarget::DataDir,
    }
}

/// The free RAM in bytes that a `MemAvailable:` line states, in kilobytes.
pub open spec fn mem_line(rest: Seq<char>) -> Option<nat> {
    let ws = words_of(rest);
    if ws.len() == 0 {
        None
    } else {
        match unsigned_of(ws[0], u64::MAX as nat) {
            Some(kb) => if kb * 1024 <= u64::MAX {
                Some(kb * 1024)
            } else {
                None
            },
            None => None,
        }
    }
}

/// The free RAM that the first `MemAvailable:` line from `i` on states.
pub open spec fn mem_available(ls: Seq<Seq<char>>, i: int) -> Option<nat>
    decreases ls.len() - i,
{
    if i >= ls.len() {
        None
    } else {
        match after_prefix(ls[i], "MemAvailable:"@) {
            Some(rest) => mem_line(rest),
            None => mem_available(ls, i + 1),
        }
    }
}

/// Reads the free RAM in bytes out of the memory information of the kernel. `None`
/// where the file could not be read or does not say.
pub fn available_ram_bytes(meminfo: Option<&str>) -> (r: Option<u64>)
    ensures
        match meminfo {
            None => r is None,
            Some(text) => match r {
                Some(n) => mem_available(lines_of(text@), 0) == Some(n as nat),
                None => mem_available(lines_of(text@), 0) is None,
            },
        },
{
    let text = match meminfo {
        Some(t) => t,
        None => {
            return None;
        },
    };
    let chars = chars_of(text);
    let ls = lines(chars.as_slice());
    let ghost all = pieces(ls@);
    for i in 0..ls.len()
        invariant
            all == pieces(ls@),
            all == lines_of(text@),
            meminfo == Some(text),
            mem_available(all, 0) == mem_available(all, i as int),
    {
        assert(all[i as int] == ls@[i as int]@);
        if let Some(rest) = cut_lit(ls[i], "MemAvailable:") {
            let ws = words(rest);
            assert(pieces(ws@).len() == ws@.len());
            if ws.len() == 0 {
                return None;
            }
            assert(pieces(ws@)[0] == ws@[0]@);
            return match parse_unsigned(ws[0], u64::MAX) {
                Some(kb) => kb.checked_mul(1024),
                None => None,
            };
        }
    }
    None
}

/// Whether a mount point is a path prefix of a path: the root, the path itself or a
/// directory above it.
pub open spec fn path_prefix(mount: Seq<char>, target: Seq<char>) -> bool {
    ||| mount == "/"@
    ||| target == mount
    ||| (after_prefix(target, mount) matches Some(rest) && rest.len() > 0 && rest[0] == '/')
}

/// Whether `mount_point` is a path prefix of `target`.
pub fn is_path_prefix(mount_point: &[char], target: &[char]) -> (r: bool)
    ensures
        r == path_prefix(mount_point@, target@),
{
    if is_text(mount_point, "/") || same_chars(target, mount_point) {
        return true;
    }
    match cut_prefix(target, mount_point) {
        Some(rest) => rest.len() > 0 && rest[0] == '/',
        None => false,
    }
}

/// The value of an octal digit.
pub open spec fn octal_digit(c: char) -> Option<int> {
    if '0' <= c <= '7' {
        Some(c as int - '0' as int)
    } else {
        None
    }
}

/// The byte that an escape at `i` stands for: a backslash and three octal digits,
/// which are a number up to 255.
pub open spec fn escape_at(f: Seq<char>, i: int) -> Option<u8> {
    if i + 3 < f.len() && f[i] == '\\' {
        match (octal_digit(f[i + 1]), octal_digit(f[i + 2]), octal_digit(f[i + 3])) {
            (Some(a), Some(b), Some(c)) if a <= 3 => Some((a * 64 + b * 8 + c) as u8),
            _ => None,
        }
    } else {
        None
    }
}

/// The text of a mount field from `i` on, its escapes replaced and every other
/// character kept; `None` where an escape is only a part of a character.
pub open spec fn unescaped(f: Seq<char>, i: int) -> Option<Seq<char>>
    decreases f.len() - i,
{
    if i >= f.len() {
        Some(Seq::empty())
    } else {
        let (c, next) = match escape_at(f, i) {
            Some(b) => (b as char, i + 4),
            None => (f[i], i + 1),
        };
        match (escape_at(f, i), unescaped(f, next)) {
            (Some(b), _) if b >= 128 => None,
            (_, Some(rest)) => Some(seq![c] + rest),
            _ => None,
        }
    }
}

/// The bytes of a mount field from `i` on, its escapes replaced.
pub open spec fn unescaped_bytes(f: Seq<char>, i: int) -> Seq<u8>
    decreases f.len() - i,
{
    if i >= f.len() {
        Seq::empty()
    } else {
        match escape_at(f, i) {
            Some(b) => seq![b] + unescaped_bytes(f, i + 4),
            None => vstd::utf8::encode_utf8(seq![f[i]]) + unescaped_bytes(f, i + 1),
        }
    }
}

/// The path that a mount field stands for: its escapes replaced, and every other
/// character kept. Where escapes spell parts of a character, the bytes are read as
/// text.
pub open spec fn mount_field(f: Seq<char>) -> Seq<char> {
    match unescaped(f, 0) {
        Some(text) => text,
        None => bytes_text(unescaped_bytes(f, 0)),
    }
}

fn octal(c: char) -> (r: Option<u8>)
    ensures
        match r {
            Some(d) => octal_digit(c) == Some(d as int) && d < 8,
            None => octal_digit(c) is None,
        },
{
    if '0' <= c && c <= '7' {
        Some(c as u8 - 48)
    } else {
        None
    }
}

fn escape(f: &[char], i: usize) -> (r: Option<u8>)
    requires
        i < f@.len(),
    ensures
        r == escape_at(f@, i as int),
{
    if f.len() - i <= 3 || f[i] != '\\' {
        return None;
    }
    match (octal(f[i + 1]), octal(f[i + 2]), octal(f[i + 3])) {
        (Some(a), Some(b), Some(c)) => if a <= 3 {
            Some(a * 64 + b * 8 + c)
        } else {
            None
        },
        _ => None,
    }
}

/// The bytes of a mount field with its escapes replaced.
fn unescape_to_bytes(f: &[char]) -> (r: Vec<u8>)
    ensures
        r@ == unescaped_bytes(f@, 0),
{
    let mut out: Vec<u8> = Vec::new();
    let n: usize = f.len();
    let mut i: usize = 0;
    assert(out@ + unescaped_bytes(f@, 0) =~= unescaped_bytes(f@, 0));
    while i < n
        invariant
            n == f@.len(),
            i <= n,
            out@ + unescaped_bytes(f@, i as int) == unescaped_bytes(f@, 0),
        decreases n - i,
    {
        let ghost prior = out@;
        match escape(f, i) {
            Some(b) => {
                out.push(b);
                assert(prior + (seq![b] + unescaped_bytes(f@, i + 4)) =~= out@ + unescaped_bytes(
                    f@,
                    i + 4,
                ));
                i = i + 4;
            },
            None => {
                let mut one: String = String::new();
                one.push(f[i]);
                assert(one@ =~= seq![f@[i as int]]);
                let part = one.as_str().as_bytes();
                push_bytes(&mut out, part);
                assert(prior + (part@ + unescaped_bytes(f@, i + 1)) =~= out@ + unescaped_bytes(
                    f@,
                    i + 1,
                ));
                i = i + 1;
            },
        }
    }
    assert(out@ + unescaped_bytes(f@, n as int) =~= out@);
    out
}

/// Replaces the octal escapes that the mount table uses for spaces, tabs, newlines and
/// backslashes.
pub fn unescape_mount_field(field: &str) -> (r: String)
    ensures
        r@ == mount_field(field@),
{
    let chars = chars_of(field);
    let f = chars.as_slice();
    let n: usize = f.len();
    let mut out: String = String::new();
    let mut i: usize = 0;
    proof {
        if let Some(rest) = unescaped(field@, 0) {
            assert(out@ + rest =~= rest);
        }
    }
    while i < n
        invariant
            f@ == field@,
            n == f@.len(),
            i <= n,
            match unescaped(field@, i as int) {
                Some(rest) => unescaped(field@, 0) == Some(out@ + rest),
                None => unescaped(field@, 0) is None,
            },
        decreases n - i,
    {
        let ghost prior = out@;
        match escape(f, i) {
            Some(b) => {
                if b >= 128 {
                    let bytes = unescape_to_bytes(f);
                    return text_of(bytes.as_slice());
                }
                out.push(b as char);
                proof {
                    if let Some(rest) = unescaped(field@, i + 4) {
                        assert(prior + (seq![b as char] + rest) =~= out@ + rest);
                    }
                }
                i = i + 4;
            },
            None => {
                out.push(f[i]);
                proof {
                    if let Some(rest) = unescaped(field@, i + 1) {
                        assert(prior + (seq![field@[i as int]] + rest) =~= out@ + rest);
                    }
                }
                i = i + 1;
            },
        }
    }
    assert(out@ + Seq::<char>::empty() =~= out@);
    out
}

/// The best mount so far: the length of its path in bytes, and whether it is in RAM.
pub struct BestMount {
    /// The length of the mount point.
    pub len: nat,
    /// The mount is RAM-backed.
    pub ram: bool,
}

/// What one line of the mount table adds: a mount point that is a path prefix wins
/// over the ones before it unless it is shorter.
pub open spec fn mount_line(best: BestMount, line: Seq<char>, target: Seq<char>) -> BestMount {
    let ws = words_of(line);
    if ws.len() < 3 {
        best
    } else {
        let mp = mount_field(ws[1]);
        let len = vstd::utf8::encode_utf8(mp).len();
        if path_prefix(mp, target) && len >= best.len {
            BestMount { len, ram: ws[2] == "tmpfs"@ || ws[2] == "ramfs"@ }
        } else {
            best
        }
    }
}

/// The best mount of the first `n` lines.
pub open spec fn best_mount(ls: Seq<Seq<char>>, target: Seq<char>, n: nat) -> BestMount
    decreases n,
{
    if n == 0 {
        BestMount { len: 0, ram: false }
    } else {
        mount_line(best_mount(ls, target, (n - 1) as nat), ls[n - 1], target)
    }
}

/// Whether a path is on a RAM-backed mount: the longest mount point that is a path
/// prefix of it decides.
pub fn path_is_on_tmpfs(path: &str, mounts: &str) -> (r: bool)
    ensures
        r == best_mount(lines_of(mounts@), path@, lines_of(mounts@).len()).ram,
{
    let target = chars_of(path);
    let chars = chars_of(mounts);
    let ls = lines(chars.as_slice());
    let ghost all = pieces(ls@);
    let mut best_len: usize = 0;
    let mut ram: bool = false;
    for i in 0..ls.len()
        invariant
            all == pieces(ls@),
            target@ == path@,
            best_len == best_mount(all, path@, i as nat).len,
            ram == best_mount(all, path@, i as nat).ram,
    {
        assert(all[i as int] == ls@[i as int]@);
        let ws = words(ls[i]);
        assert(pieces(ws@).len() == ws@.len());
        if ws.len() >= 3 {
            assert(pieces(ws@)[1] == ws@[1]@);
            assert(pieces(ws@)[2] == ws@[2]@);
            let raw = string_of(ws[1]);
            let mp = unescape_mount_field(raw.as_str());
            let mp_chars = chars_of(mp.as_str());
            let mp_bytes = mp.as_str().as_bytes();
            let len: usize = mp_bytes.len();
            if is_path_prefix(mp_chars.as_slice(), target.as_slice()) && len >= best_len {
                best_len = len;
                ram = is_text(ws[2], "tmpfs") || is_text(ws[2], "ramfs");
            }
        }
    }
    assert(all.len() == ls@.len());
    ram
}

/// The mount to stage below: the configured one or the default, where it is on a
/// RAM-backed mount. `mounts` is the mount table, where it could be read.
pub fn usable_tmpfs_base(configured: Option<&str>, mounts: Option<&str>) -> (r: Option<String>)
    ensures
        ({
            let base = match configured {
                Some(c) => c@,
                None => DEFAULT_TMPFS_DIR@,
            };
            match mounts {
                None => r is None,
                Some(m) => match r {
                    Some(b) => b@ == base && best_mount(
                        lines_of(m@),
                        base,
                        lines_of(m@).len(),
                    ).ram,
                    None => !best_mount(lines_of(m@), base, lines_of(m@).len()).ram,
                },
            }
        }),
{
    let base: &str = match configured {
        Some(c) => c,
        None => DEFAULT_TMPFS_DIR,
    };
    match mounts {
        None => None,
        Some(m) => if path_is_on_tmpfs(base, m) {
            Some(copy_str(base))
        } else {
            None
        },
    }
}

/// A snapshot is staged in RAM only where it and its headroom, of at least 512 MiB,
/// fit in the free RAM.
pub proof fn law_staging_keeps_headroom(snapshot: u64, available: Option<u64>)
    requires
        fits_in_ram(snapshot, available, headroom(snapshot)),
    ensures
        available is Some,
        snapshot + HEADROOM_FLOOR_BYTES <= available->0,
        snapshot + snapshot / 4 <= available->0,
{
}

/// A name below a directory is the directory, one slash and the name; a slash that the
/// directory already ends with is not doubled.
pub proof fn law_path_below(base: Seq<char>, name: Seq<char>)
    requires
        base.len() > 0,
        base.last() != '/',
    ensures
        path_below(base, name) == base + seq!['/'] + name,
        path_below(base + seq!['/'], name) == path_below(base, name),
        path_prefix(base, path_below(base, name)),
{
    let p = path_below(base, name);
    assert((base + seq!['/']) + name =~= p);
    assert(p.take(base.len() as int) =~= base);
}

/// A mount point covers itself, what lies below it and nothing beside it; the root
/// covers everything.
pub proof fn law_mount_covers_what_is_below_it(
    mount: Seq<char>,
    rest: Seq<char>,
    c: char,
    target: Seq<char>,
)
    ensures
        path_prefix(seq!['/'], target),
        path_prefix(mount, mount),
        path_prefix(mount, mount + seq!['/'] + rest),
        c != '/' && mount != seq!['/'] ==> !path_prefix(mount, mount + seq![c] + rest),
        path_prefix(mount, target) && mount != seq!['/'] ==> mount.len() <= target.len()
            && target.take(mount.len() as int) == mount,
{
    reveal_strlit("/");
    assert("/"@ =~= seq!['/']);
    let below = mount + seq!['/'] + rest;
    let beside = mount + seq![c] + rest;
    assert(below.take(mount.len() as int) =~= mount);
    assert(below.skip(mount.len() as int)[0] == '/');
    assert(beside.take(mount.len() as int) =~= mount);
    assert(beside.skip(mount.len() as int)[0] == c);
    if target == mount {
        assert(target.take(mount.len() as int) =~= mount);
    }
}

/// The free RAM is what the first line that names it states, in kilobytes; lines before
/// it do not count.
pub proof fn law_free_ram_is_read_from_its_line(
    before: Seq<Seq<char>>,
    kb: nat,
    after: Seq<Seq<char>>,
)
    requires
        kb * 1024 <= u64::MAX,
        forall|i: int|
            0 <= i < before.len() ==> (#[trigger] before[i]).len() > 0 && before[i][0] != 'M',
    ensures
        mem_available(
            before + seq!["MemAvailable:"@ + seq![' '] + decimal(kb) + seq![' ', 'k', 'B']] + after,
            0,
        ) == Some((kb * 1024) as nat),
        mem_available(before, 0) is None,
{
    reveal_strlit("MemAvailable:");
    let rest = seq![' '] + decimal(kb) + seq![' ', 'k', 'B'];
    let line = "MemAvailable:"@ + seq![' '] + decimal(kb) + seq![' ', 'k', 'B'];
    assert(line =~= "MemAvailable:"@ + rest);
    law_prefix_is_cut_off(line, "MemAvailable:"@, rest);
    lemma_decimal_value(kb);
    lemma_decimal_round_trip(kb, u64::MAX as nat);
    let none = Seq::<char>::empty();
    let unit = seq!['k', 'B'];
    assert(rest =~= none + seq![' '] + (decimal(kb) + seq![' '] + unit));
    law_space_parts_words(none, ' ', decimal(kb) + seq![' '] + unit);
    assert forall|i: int| 0 <= i < decimal(kb).len() implies !is_space(
        #[trigger] decimal(kb)[i],
    ) by {
        assert(is_digit(decimal(kb)[i]));
    }
    law_space_parts_words(decimal(kb), ' ', unit);
    assert(words_of(rest)[0] == decimal(kb));
    let all = before + seq![line] + after;
    lemma_skip_lines(all, before.len() as int, 0);
    assert(all[before.len() as int] == line);
    lemma_skip_lines(before, before.len() as int, 0);
}

proof fn lemma_skip_lines(ls: Seq<Seq<char>>, n: int, i: int)
    requires
        0 <= i <= n <= ls.len(),
        forall|k: int| 0 <= k < n ==> (#[trigger] ls[k]).len() > 0 && ls[k][0] != 'M',
    ensures
        mem_available(ls, i) == mem_available(ls, n),
    decreases n - i,
{
    if i < n {
        reveal_strlit("MemAvailable:");
        let p = "MemAvailable:"@;
        if p.len() <= ls[i].len() {
            assert(ls[i].take(p.len() as int)[0] == ls[i][0]);
        }
        lemma_skip_lines(ls, n, i + 1);
    }
}

/// Three octal digits behind a backslash stand for one byte, and a field without a
/// backslash stands for itself.
pub proof fn law_escapes_of_a_mount_field(a: char, b: char, c: char, rest: Seq<char>)
    requires
        '0' <= a <= '3',
        '0' <= b <= '7',
        '0' <= c <= '7',
    ensures
        unescaped_bytes(seq!['\\', a, b, c] + rest, 0) == seq![
            ((a as int - 48) * 64 + (b as int - 48) * 8 + (c as int - 48)) as u8,
        ] + unescaped_bytes(rest, 0),
        a <= '1' && unescaped(rest, 0) is Some ==> mount_field(seq!['\\', a, b, c] + rest) == seq![
            (((a as int - 48) * 64 + (b as int - 48) * 8 + (c as int - 48)) as u8) as char,
        ] + mount_field(rest),
        !rest.contains('\\') ==> mount_field(rest) == rest,
        rest.len() > 0 && rest[0] != '\\' && unescaped(rest.drop_first(), 0) is Some
            ==> mount_field(rest) == seq![rest[0]] + mount_field(rest.drop_first()),
{
    let f = seq!['\\', a, b, c] + rest;
    lemma_unescaped_from(f, 4, 0);
    assert(f.skip(4) =~= rest);
    let n = (a as int - 48) * 64 + (b as int - 48) * 8 + (c as int - 48);
    assert(0 <= n <= 255);
    assert(escape_at(f, 0) == Some(n as u8));
    if !rest.contains('\\') {
        lemma_plain_field(rest, 0);
        assert(rest.skip(0) =~= rest);
    }
    if rest.len() > 0 {
        lemma_unescaped_from(rest, 1, 0);
        assert(rest.skip(1) =~= rest.drop_first());
    }
}

proof fn lemma_unescaped_from(f: Seq<char>, k: int, i: int)
    requires
        0 <= k <= f.len(),
        0 <= i,
    ensures
        unescaped_bytes(f, k + i) == unescaped_bytes(f.skip(k), i),
        unescaped(f, k + i) == unescaped(f.skip(k), i),
    decreases f.len() - k - i,
{
    let g = f.skip(k);
    if i < g.len() {
        assert(escape_at(f, k + i) == escape_at(g, i));
        assert(f[k + i] == g[i]);
        match escape_at(g, i) {
            Some(_) => {
                lemma_unescaped_from(f, k, i + 4);
            },
            None => {
                lemma_unescaped_from(f, k, i + 1);
            },
        }
    }
}

proof fn lemma_plain_field(f: Seq<char>, i: int)
    requires
        0 <= i <= f.len(),
        !f.contains('\\'),
    ensures
        unescaped(f, i) == Some(f.skip(i)),
    decreases f.len() - i,
{
    if i < f.len() {
        assert(f.contains(f[i]));
        lemma_plain_field(f, i + 1);
        assert(seq![f[i]] + f.skip(i + 1) =~= f.skip(i));
    } else {
        assert(f.skip(i) =~= Seq::empty());
    }
}

/// Whether a line of the mount table is about a mount point that covers a path.
pub open spec fn covers(line: Seq<char>, target: Seq<char>) -> bool {
    words_of(line).len() >= 3 && path_prefix(mount_field(words_of(line)[1]), target)
}

/// The longest mount point that covers a path decides whether it is in RAM, the later
/// one of two of the same length; a path that no mount covers is not.
pub proof fn law_longest_mount_decides(ls: Seq<Seq<char>>, target: Seq<char>, n: nat)
    requires
        n <= ls.len(),
    ensures
        (forall|k: int| 0 <= k < n ==> !covers(#[trigger] ls[k], target)) ==> !best_mount(
            ls,
            target,
            n,
        ).ram,
        (exists|k: int| 0 <= k < n && covers(#[trigger] ls[k], target)) ==> exists|k: int|
            {
                &&& 0 <= k < n
                &&& covers(#[trigger] ls[k], target)
                &&& best_mount(ls, target, n).ram == (words_of(ls[k])[2] == seq![
                    't',
                    'm',
                    'p',
                    'f',
                    's',
                ] || words_of(ls[k])[2] == seq!['r', 'a', 'm', 'f', 's'])
                &&& forall|j: int|
                    0 <= j < n && covers(#[trigger] ls[j], target) ==> mount_len(ls[j])
                        <= mount_len(ls[k]) && (mount_len(ls[j]) == mount_len(ls[k]) ==> j <= k)
            },
{
    lemma_best_mount(ls, target, n);
}

/// The length of the mount point of a line, in bytes.
pub open spec fn mount_len(line: Seq<char>) -> nat {
    vstd::utf8::encode_utf8(mount_field(words_of(line)[1])).len()
}

proof fn lemma_best_mount(ls: Seq<Seq<char>>, target: Seq<char>, n: nat)
    requires
        n <= ls.len(),
    ensures
        (forall|k: int| 0 <= k < n ==> !covers(#[trigger] ls[k], target)) ==> best_mount(
            ls,
            target,
            n,
        ) == (BestMount { len: 0, ram: false }),
        (exists|k: int| 0 <= k < n && covers(#[trigger] ls[k], target)) ==> exists|k: int|
            {
                &&& 0 <= k < n
                &&& covers(#[trigger] ls[k], target)
                &&& best_mount(ls, target, n).len == mount_len(ls[k])
                &&& best_mount(ls, target, n).ram == (words_of(ls[k])[2] == seq![
                    't',
                    'm',
                    'p',
                    'f',
                    's',
                ] || words_of(ls[k])[2] == seq!['r', 'a', 'm', 'f', 's'])
                &&& forall|j: int|
                    0 <= j < n && covers(#[trigger] ls[j], target) ==> mount_len(ls[j])
                        <= mount_len(ls[k]) && (mount_len(ls[j]) == mount_len(ls[k]) ==> j <= k)
            },
    decreases n,
{
    if n > 0 {
        reveal_strlit("tmpfs");
        reveal_strlit("ramfs");
        assert("tmpfs"@ =~= seq!['t', 'm', 'p', 'f', 's']);
        assert("ramfs"@ =~= seq!['r', 'a', 'm', 'f', 's']);
        let m = (n - 1) as nat;
        lemma_best_mount(ls, target, m);
        let best = best_mount(ls, target, m);
        let line = ls[n - 1];
        if exists|k: int| 0 <= k < m && covers(#[trigger] ls[k], target) {
            let k = choose|k: int|
                {
                    &&& 0 <= k < m
                    &&& covers(#[trigger] ls[k], target)
                    &&& best.len == mount_len(ls[k])
                    &&& best.ram == (words_of(ls[k])[2] == seq!['t', 'm', 'p', 'f', 's']
                        || words_of(ls[k])[2] == seq!['r', 'a', 'm', 'f', 's'])
                    &&& forall|j: int|
                        0 <= j < m && covers(#[trigger] ls[j], target) ==> mount_len(ls[j])
                            <= mount_len(ls[k]) && (mount_len(ls[j]) == mount_len(ls[k]) ==> j
                            <= k)
                };
            let k2 = if covers(line, target) && mount_len(line) >= best.len {
                n - 1
            } else {
                k
            };
            assert(covers(ls[k2], target));
            assert forall|j: int| 0 <= j < n && covers(#[trigger] ls[j], target) implies mount_len(
                ls[j],
            ) <= mount_len(ls[k2]) && (mount_len(ls[j]) == mount_len(ls[k2]) ==> j <= k2) by {
                if j < m {
                    assert(mount_len(ls[j]) <= mount_len(ls[k]));
                }
            }
        } else if covers(line, target) {
            let k2 = n - 1;
            assert(covers(ls[k2], target));
            assert forall|j: int| 0 <= j < n && covers(#[trigger] ls[j], target) implies mount_len(
                ls[j],
            ) <= mount_len(ls[k2]) && (mount_len(ls[j]) == mount_len(ls[k2]) ==> j <= k2) by {
                assert(j == k2);
            }
        }
    }
}

} // verus!
