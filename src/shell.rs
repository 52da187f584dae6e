//! The shell's own logic: paths, command lines, line editing and the text
//! that the built-in commands print.
use crate::text::{decimal, padded, push_decimal, push_padded_decimal};
use vstd::prelude::*;
use vstd::string::{StrSliceExecFns, StringExecFns};

verus! {

/// The path `stack` after the component `seg`: empty components and `.`
/// change nothing, `..` drops the last component if there is one, and
/// any other component is appended.
pub open spec fn step_component(stack: Seq<Seq<char>>, seg: Seq<char>) -> Seq<Seq<char>> {
    if seg.len() == 0 || seg == seq!['.'] {
        stack
    } else if seg == seq!['.', '.'] {
        if stack.len() > 0 {
            stack.drop_last()
        } else {
            stack
        }
    } else {
        stack.push(seg)
    }
}

/// Reading `s` from the left: the components kept so far, and the
/// component being read since the last `/`.
pub open spec fn walk(s: Seq<char>) -> (Seq<Seq<char>>, Seq<char>)
    decreases s.len(),
{
    if s.len() == 0 {
        (Seq::empty(), Seq::empty())
    } else {
        let (stack, cur) = walk(s.drop_last());
        if s.last() == '/' {
            (step_component(stack, cur), Seq::empty())
        } else {
            (stack, cur.push(s.last()))
        }
    }
}

/// The components of the normalised path `s`.
pub open spec fn components(s: Seq<char>) -> Seq<Seq<char>> {
    step_component(walk(s).0, walk(s).1)
}

/// The components separated by `/`.
pub open spec fn join(parts: Seq<Seq<char>>) -> Seq<char>
    decreases parts.len(),
{
    if parts.len() == 0 {
        Seq::empty()
    } else if parts.len() == 1 {
        parts[0]
    } else {
        join(parts.drop_last()) + seq!['/'] + parts.last()
    }
}

/// `s` with `.` and empty components dropped and each `..` taking away the
/// component before it; a leading `/` stays, and `..` never climbs above
/// the start.
pub open spec fn normalized(s: Seq<char>) -> Seq<char> {
    if s.len() > 0 && s[0] == '/' {
        seq!['/'] + join(components(s))
    } else {
        join(components(s))
    }
}

/// The characters of `s` that the ranges in `stack` pick out.
pub open spec fn picked(s: Seq<char>, stack: Seq<(usize, usize)>) -> Seq<Seq<char>> {
    stack.map_values(|r: (usize, usize)| s.subrange(r.0 as int, r.1 as int))
}

/// Every range in `stack` lies within a text of length `len`.
pub open spec fn ranges_within(stack: Seq<(usize, usize)>, len: nat) -> bool {
    forall|j: int| 0 <= j < stack.len() ==> #[trigger] stack[j].0 <= stack[j].1 <= len
}

/// Applies the component `s[lo..hi]` to `stack`.
fn push_component(s: &str, stack: &mut Vec<(usize, usize)>, lo: usize, hi: usize)
    requires
        lo <= hi <= s@.len(),
        ranges_within(old(stack)@, s@.len()),
    ensures
        picked(s@, final(stack)@) == step_component(
            picked(s@, old(stack)@),
            s@.subrange(lo as int, hi as int),
        ),
        ranges_within(final(stack)@, s@.len()),
{
    let ghost seg = s@.subrange(lo as int, hi as int);
    let ghost before = picked(s@, stack@);
    let ghost orig = stack@;
    assert(ranges_within(orig, s@.len()));
    let n = hi - lo;
    if n == 0 {
        return;
    }
    let first = s.get_char(lo);
    if n == 1 {
        if first == '.' {
            assert(seg =~= seq!['.']);
            return;
        }
        assert(seg[0] != seq!['.'][0]);
    }
    if n == 2 {
        let second = s.get_char(lo + 1);
        if first == '.' && second == '.' {
            assert(seg =~= seq!['.', '.']);
            if stack.len() > 0 {
                stack.pop();
                assert(picked(s@, stack@) =~= before.drop_last());
            }
            return;
        }
        assert(seg[0] != seq!['.', '.'][0] || seg[1] != seq!['.', '.'][1]);
    }
    assert(seg.len() == n);
    assert(seq!['.'].len() == 1 && seq!['.', '.'].len() == 2);
    assert(seg != seq!['.']);
    assert(seg != seq!['.', '.']);
    let ghost old_stack = stack@;
    stack.push((lo, hi));
    assert(picked(s@, stack@) =~= before.push(seg));
    assert(ranges_within(stack@, s@.len())) by {
        assert forall|j: int| 0 <= j < stack@.len() implies (#[trigger] stack@[j]).0 <= stack@[j].1
            <= s@.len() by {
            if j < old_stack.len() {
                assert(old_stack == orig);
                assert(stack@[j] == orig[j]);
            }
        }
    }
}

/// Normalises `path`: drops `.` and empty components and resolves `..`
/// against the component before it, never above the start. A leading `/`
/// is kept.
pub fn path_normalize(path: &str) -> (r: String)
    ensures
        r@ == normalized(path@),
{
    let n = path.unicode_len();
    let mut stack: Vec<(usize, usize)> = Vec::new();
    let mut seg_start: usize = 0;
    let mut i: usize = 0;
    while i < n
        invariant
            n == path@.len(),
            seg_start <= i <= n,
            ranges_within(stack@, path@.len()),
            walk(path@.take(i as int)) == (
                picked(path@, stack@),
                path@.subrange(seg_start as int, i as int),
            ),
        decreases n - i,
    {
        let c = path.get_char(i);
        let ghost prefix = path@.take(i as int);
        assert(path@.take(i + 1).drop_last() =~= prefix);
        assert(path@.take(i + 1).last() == c);
        if c == '/' {
            push_component(path, &mut stack, seg_start, i);
            seg_start = i + 1;
            assert(path@.subrange(seg_start as int, seg_start as int) =~= Seq::<char>::empty());
        } else {
            assert(path@.subrange(seg_start as int, i + 1) =~= path@.subrange(
                seg_start as int,
                i as int,
            ).push(c));
        }
        i = i + 1;
    }
    assert(path@.take(n as int) =~= path@);
    push_component(path, &mut stack, seg_start, n);
    let ghost parts = picked(path@, stack@);
    assert(parts == components(path@));
    let mut out = String::new();
    let rooted = n > 0 && path.get_char(0) == '/';
    if rooted {
        out.append("/");
    }
    let ghost lead = out@;
    proof {
        reveal_strlit("/");
        assert(lead == (if rooted {
            seq!['/']
        } else {
            Seq::<char>::empty()
        }));
    }
    let mut m: usize = 0;
    while m < stack.len()
        invariant
            m <= stack@.len(),
            parts == picked(path@, stack@),
            ranges_within(stack@, path@.len()),
            out@ == lead + join(parts.take(m as int)),
        decreases stack@.len() - m,
    {
        let (lo, hi) = stack[m];
        let part = path.substring_char(lo, hi);
        assert(part@ == parts[m as int]);
        if m > 0 {
            out.append("/");
            proof {
                reveal_strlit("/");
            }
        }
        out.append(part);
        proof {
            let t = parts.take(m + 1);
            assert(t.drop_last() =~= parts.take(m as int));
            assert(t.last() == parts[m as int]);
            if m == 0 {
                assert(join(t) == t[0]);
                assert(join(parts.take(0)) =~= Seq::<char>::empty());
                assert(out@ =~= lead + join(t));
            } else {
                assert(out@ =~= lead + join(t));
            }
        }
        m = m + 1;
    }
    assert(parts.take(stack@.len() as int) =~= parts);
    out
}

/// The text of each argument.
pub open spec fn texts(args: Seq<&str>) -> Seq<Seq<char>> {
    args.map_values(|a: &str| a@)
}

/// What `echo` prints for `args`: each argument followed by a space.
pub open spec fn echo_text(args: Seq<Seq<char>>) -> Seq<char>
    decreases args.len(),
{
    if args.len() == 0 {
        Seq::empty()
    } else {
        echo_text(args.drop_last()) + args.last() + seq![' ']
    }
}

/// The line that `echo` prints: each argument followed by a space.
pub fn cmd_echo(args: &[&str]) -> (r: String)
    ensures
        r@ == echo_text(texts(args@)),
{
    let mut out = String::new();
    let mut i: usize = 0;
    while i < args.len()
        invariant
            i <= args@.len(),
            out@ == echo_text(texts(args@).take(i as int)),
        decreases args@.len() - i,
    {
        out.append(args[i]);
        out.append(" ");
        proof {
            reveal_strlit(" ");
            let t = texts(args@).take(i + 1);
            assert(t.drop_last() =~= texts(args@).take(i as int));
            assert(out@ =~= echo_text(t));
        }
        i = i + 1;
    }
    assert(texts(args@).take(args@.len() as int) =~= texts(args@));
    out
}

/// The line that `pwd` prints: the working directory, or a complaint when
/// it is given arguments.
pub fn cmd_pwd(args: &[&str], cwd: &str) -> (r: String)
    ensures
        r@ == (if args@.len() > 0 {
            "pwd: too many arguments"@
        } else {
            cwd@
        }),
{
    if args.len() > 0 {
        return String::from_str("pwd: too many arguments");
    }
    String::from_str(cwd)
}

/// Reading `s` from the left: the words so far, and the word being read
/// since the last space.
pub open spec fn walk_words(s: Seq<char>) -> (Seq<Seq<char>>, Seq<char>)
    decreases s.len(),
{
    if s.len() == 0 {
        (Seq::empty(), Seq::empty())
    } else {
        let (words, cur) = walk_words(s.drop_last());
        if s.last() == ' ' {
            (if cur.len() > 0 {
                words.push(cur)
            } else {
                words
            }, Seq::empty())
        } else {
            (words, cur.push(s.last()))
        }
    }
}

/// The words of `s`: its runs of characters between spaces.
pub open spec fn words(s: Seq<char>) -> Seq<Seq<char>> {
    let (w, cur) = walk_words(s);
    if cur.len() > 0 {
        w.push(cur)
    } else {
        w
    }
}

/// Why a command line was not parsed.
#[derive(Debug, PartialEq, Eq, Structural, Clone, Copy)]
pub enum Error {
    Empty,
    TooManyArgs,
}

/// A command line split into its arguments; the first is the command.
#[derive(Debug)]
pub struct Command {
    args: Vec<String>,
}

/// Pushes the word `s[lo..hi]`, if it is not empty.
fn push_word(s: &str, found: &mut Vec<(usize, usize)>, lo: usize, hi: usize)
    requires
        lo <= hi <= s@.len(),
        ranges_within(old(found)@, s@.len()),
    ensures
        picked(s@, final(found)@) == (if hi > lo {
            picked(s@, old(found)@).push(s@.subrange(lo as int, hi as int))
        } else {
            picked(s@, old(found)@)
        }),
        ranges_within(final(found)@, s@.len()),
{
    if hi > lo {
        let ghost before = found@;
        found.push((lo, hi));
        assert(picked(s@, found@) =~= picked(s@, before).push(s@.subrange(lo as int, hi as int)));
        assert(ranges_within(found@, s@.len())) by {
            assert forall|j: int| 0 <= j < found@.len() implies (#[trigger] found@[j]).0
                <= found@[j].1 <= s@.len() by {
                if j < before.len() {
                    assert(found@[j] == before[j]);
                }
            }
        }
    }
}

impl Command {
    /// The arguments' text.
    pub closed spec fn words(&self) -> Seq<Seq<char>> {
        self.args@.map_values(|a: String| a@)
    }

    /// Parses a command from `s`, keeping at most `max_args` arguments.
    ///
    /// # Errors
    ///
    /// If `s` holds no arguments, returns `Error::Empty`. If it holds more
    /// than `max_args`, returns `Error::TooManyArgs`.
    pub fn parse(s: &str, max_args: usize) -> (r: Result<Command, Error>)
        ensures
            words(s@).len() > max_args ==> r == Err::<Command, Error>(Error::TooManyArgs),
            words(s@).len() <= max_args && words(s@).len() == 0 ==> r == Err::<Command, Error>(
                Error::Empty,
            ),
            words(s@).len() <= max_args && words(s@).len() > 0 ==> (r matches Ok(c) && c.words()
                == words(s@)),
    {
        let n = s.unicode_len();
        let mut found: Vec<(usize, usize)> = Vec::new();
        let mut word_start: usize = 0;
        let mut i: usize = 0;
        while i < n
            invariant
                n == s@.len(),
                word_start <= i <= n,
                ranges_within(found@, s@.len()),
                walk_words(s@.take(i as int)) == (
                    picked(s@, found@),
                    s@.subrange(word_start as int, i as int),
                ),
            decreases n - i,
        {
            let c = s.get_char(i);
            assert(s@.take(i + 1).drop_last() =~= s@.take(i as int));
            assert(s@.take(i + 1).last() == c);
            if c == ' ' {
                push_word(s, &mut found, word_start, i);
                word_start = i + 1;
                assert(s@.subrange(word_start as int, word_start as int) =~= Seq::<char>::empty());
            } else {
                assert(s@.subrange(word_start as int, i + 1) =~= s@.subrange(
                    word_start as int,
                    i as int,
                ).push(c));
            }
            i = i + 1;
        }
        assert(s@.take(n as int) =~= s@);
        push_word(s, &mut found, word_start, n);
        let ghost all = picked(s@, found@);
        assert(all == words(s@));
        if found.len() > max_args {
            return Err(Error::TooManyArgs);
        }
        if found.len() == 0 {
            return Err(Error::Empty);
        }
        let mut args: Vec<String> = Vec::new();
        let mut m: usize = 0;
        while m < found.len()
            invariant
                m <= found@.len(),
                all == picked(s@, found@),
                ranges_within(found@, s@.len()),
                args@.len() == m,
                forall|j: int| 0 <= j < m ==> #[trigger] args@[j]@ == all[j],
            decreases found@.len() - m,
        {
            let (lo, hi) = found[m];
            args.push(String::from_str(s.substring_char(lo, hi)));
            m = m + 1;
        }
        let c = Command { args };
        assert(c.words() =~= all);
        Ok(c)
    }

    /// The number of arguments, the command included.
    pub fn len(&self) -> (n: usize)
        ensures
            n == self.words().len(),
    {
        self.args.len()
    }

    /// The argument at `i`; the command itself is at 0.
    pub fn arg(&self, i: usize) -> (a: &str)
        requires
            i < self.words().len(),
        ensures
            a@ == self.words()[i as int],
    {
        self.args[i].as_str()
    }

    /// Returns this command's path. This is equivalent to the first argument.
    pub fn path(&self) -> (p: &str)
        requires
            self.words().len() > 0,
        ensures
            p@ == self.words()[0],
    {
        self.args[0].as_str()
    }
}

/// Backspace.
pub const BS: u8 = 0x08;
/// The bell.
pub const BEL: u8 = 0x07;
/// Line feed.
pub const LF: u8 = 0x0A;
/// Carriage return.
pub const CR: u8 = 0x0D;
/// Delete.
pub const DEL: u8 = 0x7F;

/// What the console should show after a key press on the line being edited.
#[derive(Debug, PartialEq, Eq, Structural, Clone, Copy)]
pub enum LineEdit {
    /// The byte joined the line: show it.
    Echo(u8),
    /// The last byte left the line: rub it out on screen.
    Erase,
    /// Nothing changed: ring the bell.
    Bell,
    /// The line is finished.
    Done,
}

/// Applies one key press to a line of at most `capacity` bytes. A printable
/// byte joins the line while there is room; backspace or delete takes the
/// last byte away; carriage return or line feed ends the line. Anything
/// else, and a byte that finds no room or nothing to take away, leaves the
/// line as it is.
pub fn edit_line(line: &mut Vec<u8>, capacity: usize, byte: u8) -> (r: LineEdit)
    ensures
        0x20 <= byte <= 0x7E && old(line)@.len() < capacity ==> r == LineEdit::Echo(byte)
            && final(line)@ == old(line)@.push(byte),
        (byte == BS || byte == DEL) && old(line)@.len() > 0 ==> r == LineEdit::Erase
            && final(line)@ == old(line)@.drop_last(),
        byte == CR || byte == LF ==> r == LineEdit::Done && final(line)@ == old(line)@,
        r == LineEdit::Bell ==> final(line)@ == old(line)@,
        r == LineEdit::Bell <==> (0x20 <= byte <= 0x7E && old(line)@.len() >= capacity) || ((
        byte == BS || byte == DEL) && old(line)@.len() == 0) || !(0x20 <= byte <= 0x7E || byte
            == BS || byte == DEL || byte == CR || byte == LF),
{
    if 0x20 <= byte && byte <= 0x7E {
        if line.len() < capacity {
            line.push(byte);
            LineEdit::Echo(byte)
        } else {
            LineEdit::Bell
        }
    } else if byte == BS || byte == DEL {
        match line.pop() {
            Some(_) => LineEdit::Erase,
            None => LineEdit::Bell,
        }
    } else if byte == CR || byte == LF {
        LineEdit::Done
    } else {
        LineEdit::Bell
    }
}

/// `arg` taken from the directory `cwd`: an absolute `arg` stands alone.
pub open spec fn joined(cwd: Seq<char>, arg: Seq<char>) -> Seq<char> {
    if arg.len() > 0 && arg[0] == '/' {
        arg
    } else {
        cwd + seq!['/'] + arg
    }
}

/// Whether `a` is `n` dots, for `n` of 1 or 2.
fn is_dots(a: &str, n: usize) -> (b: bool)
    requires
        n == 1 || n == 2,
    ensures
        b == (a@ == (if n == 1 {
            seq!['.']
        } else {
            seq!['.', '.']
        })),
{
    let len = a.unicode_len();
    if len != n {
        assert(seq!['.'].len() == 1 && seq!['.', '.'].len() == 2);
        return false;
    }
    if a.get_char(0) != '.' {
        return false;
    }
    if n == 2 && a.get_char(1) != '.' {
        return false;
    }
    if n == 1 {
        assert(a@ =~= seq!['.']);
    } else {
        assert(a@ =~= seq!['.', '.']);
    }
    true
}

/// The normalised form of `arg` taken from `cwd`.
fn resolve(cwd: &str, arg: &str) -> (r: String)
    ensures
        r@ == normalized(joined(cwd@, arg@)),
{
    if arg.unicode_len() > 0 && arg.get_char(0) == '/' {
        return path_normalize(arg);
    }
    let mut p = String::from_str(cwd);
    p.append("/");
    p.append(arg);
    proof {
        reveal_strlit("/");
        assert(p@ =~= cwd@ + seq!['/'] + arg@);
    }
    path_normalize(p.as_str())
}

/// What `cd` asks for.
#[derive(Debug)]
pub enum CdAction {
    /// Make this the working directory.
    Go(String),
    /// Make this the working directory if the file system has it.
    Check(String),
    /// Keep the working directory.
    Stay,
    /// More than one argument was given.
    TooManyArgs,
}

/// Decides what `cd` with `args` does from the working directory `cwd`.
/// No argument goes to `/`, `.` stays and `..` goes to the parent, with no
/// look at the file system; any other argument names a directory, taken
/// from `cwd` and normalised, that must exist to be entered.
pub fn cmd_cd(args: &[&str], cwd: &str) -> (r: CdAction)
    ensures
        args@.len() == 0 ==> (r matches CdAction::Go(p) && p@ == seq!['/']),
        args@.len() > 1 ==> r is TooManyArgs,
        args@.len() == 1 && args@[0]@ == seq!['.'] ==> r is Stay,
        args@.len() == 1 && args@[0]@ == seq!['.', '.'] ==> (r matches CdAction::Go(p) && p@
            == normalized(joined(cwd@, seq!['.', '.']))),
        args@.len() == 1 && args@[0]@ != seq!['.'] && args@[0]@ != seq!['.', '.'] ==> (r matches CdAction::Check(
            p,
        ) && p@ == normalized(joined(cwd@, args@[0]@))),
{
    if args.len() == 0 {
        let root = String::from_str("/");
        proof {
            reveal_strlit("/");
        }
        return CdAction::Go(root);
    }
    if args.len() > 1 {
        return CdAction::TooManyArgs;
    }
    let arg = args[0];
    assert(seq!['.'].len() == 1 && seq!['.', '.'].len() == 2);
    if is_dots(arg, 1) {
        return CdAction::Stay;
    }
    if is_dots(arg, 2) {
        return CdAction::Go(resolve(cwd, arg));
    }
    CdAction::Check(resolve(cwd, arg))
}

/// What `ls` asks for.
#[derive(Debug)]
pub enum LsRequest {
    /// List this directory, hidden entries too when the flag is set.
    List { directory: String, show_hidden: bool },
    /// Two arguments, the first not `-a`.
    Usage,
    /// More than two arguments.
    TooManyArgs,
}

/// Whether `a` is the flag `-a`.
fn is_all_flag(a: &str) -> (b: bool)
    ensures
        b == (a@ == seq!['-', 'a']),
{
    if a.unicode_len() != 2 {
        assert(seq!['-', 'a'].len() == 2);
        return false;
    }
    if a.get_char(0) != '-' || a.get_char(1) != 'a' {
        return false;
    }
    assert(a@ =~= seq!['-', 'a']);
    true
}

/// Decides what `ls` with `args` lists from the working directory `cwd`:
/// `[-a] [directory]`, the directory taken from `cwd` and normalised.
pub fn cmd_ls(args: &[&str], cwd: &str) -> (r: LsRequest)
    ensures
        args@.len() == 0 ==> (r matches LsRequest::List { directory, show_hidden } && !show_hidden
            && directory@ == normalized(cwd@)),
        args@.len() == 1 && args@[0]@ == seq!['-', 'a'] ==> (r matches LsRequest::List {
            directory,
            show_hidden,
        } && show_hidden && directory@ == normalized(cwd@)),
        args@.len() == 1 && args@[0]@ != seq!['-', 'a'] ==> (r matches LsRequest::List {
            directory,
            show_hidden,
        } && !show_hidden && directory@ == normalized(joined(cwd@, args@[0]@))),
        args@.len() == 2 && args@[0]@ == seq!['-', 'a'] ==> (r matches LsRequest::List {
            directory,
            show_hidden,
        } && show_hidden && directory@ == normalized(joined(cwd@, args@[1]@))),
        args@.len() == 2 && args@[0]@ != seq!['-', 'a'] ==> r is Usage,
        args@.len() > 2 ==> r is TooManyArgs,
{
    if args.len() == 0 {
        return LsRequest::List { directory: path_normalize(cwd), show_hidden: false };
    }
    if args.len() == 1 {
        if is_all_flag(args[0]) {
            return LsRequest::List { directory: path_normalize(cwd), show_hidden: true };
        }
        return LsRequest::List { directory: resolve(cwd, args[0]), show_hidden: false };
    }
    if args.len() == 2 {
        if is_all_flag(args[0]) {
            return LsRequest::List { directory: resolve(cwd, args[1]), show_hidden: true };
        }
        return LsRequest::Usage;
    }
    LsRequest::TooManyArgs
}

/// What `ls` shows of a directory entry.
#[derive(Debug)]
pub struct EntryInfo {
    pub name: String,
    pub is_dir: bool,
    pub is_file: bool,
    pub read_only: bool,
    /// The entry only names the volume.
    pub volume_id: bool,
    pub day: u8,
    pub month: u8,
    pub year: u64,
    pub hour: u8,
    pub minute: u8,
    /// The size of a file's contents, in bytes.
    pub size: u64,
}

/// A name that starts with a dot is hidden.
pub open spec fn is_hidden(name: Seq<char>) -> bool {
    name.len() > 0 && name[0] == '.'
}

/// The flags `ls` shows for `e`: directory, hidden, read-only or
/// writable, and a space.
pub open spec fn flags_text(e: EntryInfo) -> Seq<char> {
    seq![
        if e.is_dir { 'd' } else { '-' },
        if is_hidden(e.name@) { 'h' } else { '-' },
        if e.read_only { 'r' } else { 'w' },
        ' ',
    ]
}

/// The date of the last change, `dd.mm.yyyy`, and a space.
pub open spec fn date_text(e: EntryInfo) -> Seq<char> {
    padded(decimal(e.day as nat), 2, '0') + seq!['.'] + padded(decimal(e.month as nat), 2, '0')
        + seq!['.'] + decimal(e.year as nat) + seq![' ']
}

/// The time of the last change, `hh:mm`, and a space.
pub open spec fn time_text(e: EntryInfo) -> Seq<char> {
    padded(decimal(e.hour as nat), 2, '0') + seq![':'] + padded(decimal(e.minute as nat), 2, '0')
        + seq![' ']
}

/// The size, 0 for what is not a file, right-aligned in ten columns, and a
/// space.
pub open spec fn size_text(e: EntryInfo) -> Seq<char> {
    padded(
        decimal(
            (if e.is_file {
                e.size
            } else {
                0
            }) as nat,
        ),
        10,
        ' ',
    ) + seq![' ']
}

/// The name, with a `/` after a directory's.
pub open spec fn name_text(e: EntryInfo) -> Seq<char> {
    e.name@ + (if e.is_dir {
        seq!['/']
    } else {
        Seq::empty()
    })
}

/// The line `ls` prints for `e`: its flags, the date and time of its last
/// change, its size and its name.
pub open spec fn entry_line(e: EntryInfo) -> Seq<char> {
    flags_text(e) + date_text(e) + time_text(e) + size_text(e) + name_text(e)
}

/// Appends `c`, given as a one-character string.
fn push_char(out: &mut String, c: &str)
    requires
        c@.len() == 1,
    ensures
        final(out)@ == old(out)@.push(c@[0]),
{
    out.append(c);
    assert(c@ =~= seq![c@[0]]);
}

/// Appends `flags_text(e)`.
fn push_flags(out: &mut String, e: &EntryInfo, hidden: bool)
    requires
        hidden == is_hidden(e.name@),
    ensures
        final(out)@ == old(out)@ + flags_text(*e),
{
    proof {
        reveal_strlit("d");
        reveal_strlit("-");
        reveal_strlit("h");
        reveal_strlit("r");
        reveal_strlit("w");
        reveal_strlit(" ");
    }
    let ghost start = out@;
    push_char(out, if e.is_dir { "d" } else { "-" });
    push_char(out, if hidden { "h" } else { "-" });
    push_char(out, if e.read_only { "r" } else { "w" });
    push_char(out, " ");
    assert(out@ =~= start + flags_text(*e));
}

/// Appends `date_text(e)`.
fn push_date(out: &mut String, e: &EntryInfo)
    ensures
        final(out)@ == old(out)@ + date_text(*e),
{
    proof {
        reveal_strlit("0");
        reveal_strlit(".");
        reveal_strlit(" ");
    }
    let ghost start = out@;
    push_padded_decimal(out, e.day as u64, 2, "0");
    push_char(out, ".");
    push_padded_decimal(out, e.month as u64, 2, "0");
    push_char(out, ".");
    push_decimal(out, e.year);
    push_char(out, " ");
    assert(out@ =~= start + date_text(*e));
}

/// Appends `time_text(e)`.
fn push_time(out: &mut String, e: &EntryInfo)
    ensures
        final(out)@ == old(out)@ + time_text(*e),
{
    proof {
        reveal_strlit("0");
        reveal_strlit(":");
        reveal_strlit(" ");
    }
    let ghost start = out@;
    push_padded_decimal(out, e.hour as u64, 2, "0");
    push_char(out, ":");
    push_padded_decimal(out, e.minute as u64, 2, "0");
    push_char(out, " ");
    assert(out@ =~= start + time_text(*e));
}

/// Appends `size_text(e)` and `name_text(e)`.
fn push_size_and_name(out: &mut String, e: &EntryInfo)
    ensures
        final(out)@ == old(out)@ + size_text(*e) + name_text(*e),
{
    proof {
        reveal_strlit(" ");
        reveal_strlit("/");
    }
    let ghost start = out@;
    let size = if e.is_file {
        e.size
    } else {
        0
    };
    push_padded_decimal(out, size, 10, " ");
    push_char(out, " ");
    out.append(e.name.as_str());
    if e.is_dir {
        push_char(out, "/");
    }
    assert(out@ =~= start + size_text(*e) + name_text(*e));
}

/// The line `ls` prints for `e`, or `None` when `e` is not listed: the
/// volume's own entry never is, and a hidden one only with `show_hidden`.
pub fn ls_entry(e: &EntryInfo, show_hidden: bool) -> (r: Option<String>)
    ensures
        e.volume_id || (!show_hidden && is_hidden(e.name@)) ==> r is None,
        !(e.volume_id || (!show_hidden && is_hidden(e.name@))) ==> (r matches Some(l) && l@
            == entry_line(*e)),
{
    let name = e.name.as_str();
    let hidden = name.unicode_len() > 0 && name.get_char(0) == '.';
    if (!show_hidden && hidden) || e.volume_id {
        return None;
    }
    let mut out = String::new();
    push_flags(&mut out, e, hidden);
    push_date(&mut out, e);
    push_time(&mut out, e);
    push_size_and_name(&mut out, e);
    assert(out@ =~= entry_line(*e));
    Some(out)
}

} // verus!
