//! Telling the processes of the application by what the system says of them.

use vstd::prelude::*;

use crate::rate;
use crate::text;

verus! {

/// The unit is the first of a surrogate pair.
pub open spec fn is_lead(u: u16) -> bool {
    0xd800 <= u <= 0xdbff
}

/// The unit is the second of a surrogate pair.
pub open spec fn is_trail(u: u16) -> bool {
    0xdc00 <= u <= 0xdfff
}

/// The character of a surrogate pair.
pub open spec fn pair_char(lead: u16, trail: u16) -> char {
    (0x1_0000 + (lead - 0xd800) * 0x400 + (trail - 0xdc00)) as char
}

/// The text of a row of 16-bit units: a surrogate pair is one character, a surrogate that is
/// in no pair becomes the replacement character, and any other unit is a character itself.
pub open spec fn utf16_text(units: Seq<u16>) -> Seq<char>
    decreases units.len(),
{
    if units.len() == 0 {
        Seq::empty()
    } else if is_lead(units[0]) && units.len() >= 2 && is_trail(units[1]) {
        seq![pair_char(units[0], units[1])] + utf16_text(units.skip(2))
    } else if is_lead(units[0]) || is_trail(units[0]) {
        seq!['\u{fffd}'] + utf16_text(units.skip(1))
    } else {
        seq![units[0] as char] + utf16_text(units.skip(1))
    }
}

/// Decodes a row of 16-bit units: `String::from_utf16_lossy` of the standard library. It reads
/// UTF-16, and puts the replacement character where a surrogate stands alone.
#[verifier::external_body]
fn decode_utf16(units: &[u16]) -> (r: String)
    ensures
        r@ == utf16_text(units@),
{
    String::from_utf16_lossy(units)
}

/// The units before the first zero.
pub open spec fn until_zero(s: Seq<u16>) -> Seq<u16>
    decreases s.len(),
{
    if s.len() == 0 || s[0] == 0 {
        Seq::empty()
    } else {
        seq![s[0]] + until_zero(s.skip(1))
    }
}

fn before_zero(s: &[u16]) -> (r: Vec<u16>)
    ensures
        r@ == until_zero(s@),
{
    let mut v: Vec<u16> = Vec::new();
    let n: usize = s.len();
    let mut i: usize = 0;
    assert(s@.skip(0) =~= s@);
    assert(v@ + until_zero(s@) =~= until_zero(s@));
    while i < n && s[i] != 0
        invariant
            i <= n,
            n == s@.len(),
            v@ + until_zero(s@.skip(i as int)) == until_zero(s@),
        decreases n - i,
    {
        let ghost v0 = v@;
        v.push(s[i]);
        assert(s@.skip(i as int).skip(1) =~= s@.skip(i + 1));
        assert(v0 + (seq![s@[i as int]] + until_zero(s@.skip(i + 1))) =~= v@ + until_zero(
            s@.skip(i + 1),
        ));
        i = i + 1;
    }
    assert(until_zero(s@.skip(i as int)) =~= Seq::empty());
    assert(v@ =~= until_zero(s@));
    v
}

/// A process as the system lists it: its number, the name of its program as the system
/// gives it, and its command line if that can be read.
#[derive(Debug)]
pub struct ProcEntry {
    pub pid: u32,
    pub exe: Vec<u16>,
    pub cmd: Option<String>,
}

/// The program of the application.
pub open spec fn is_app_exe(exe: Seq<u16>) -> bool {
    text::same_letters(utf16_text(until_zero(exe)), "zcode.exe"@)
}

/// The units spell the name of the program, each letter small or capital.
pub open spec fn spells_app(units: Seq<u16>) -> bool {
    let name = "zcode.exe"@;
    &&& units.len() == name.len()
    &&& forall|i: int|
        0 <= i < units.len() ==> (#[trigger] units[i] == name[i] as u16 || 'a' <= name[i] <= 'z'
            && units[i] + 32 == name[i] as u16)
}

proof fn lemma_utf16_plain(units: Seq<u16>)
    requires
        forall|i: int| 0 <= i < units.len() ==> #[trigger] units[i] < 0x80,
    ensures
        utf16_text(units).len() == units.len(),
        forall|i: int| 0 <= i < units.len() ==> #[trigger] utf16_text(units)[i] == units[i] as char,
    decreases units.len(),
{
    if units.len() > 0 {
        let rest = units.skip(1);
        assert forall|i: int| 0 <= i < rest.len() implies #[trigger] rest[i] < 0x80 by {
            assert(rest[i] == units[i + 1]);
        }
        lemma_utf16_plain(rest);
        assert(units[0] < 0x80);
        assert forall|i: int| 0 <= i < units.len() implies #[trigger] utf16_text(units)[i]
            == units[i] as char by {
            if i > 0 {
                assert(utf16_text(units)[i] == utf16_text(rest)[i - 1]);
                assert(rest[i - 1] == units[i]);
            }
        }
    }
}

proof fn lemma_plain_utf16(units: Seq<u16>)
    requires
        forall|i: int|
            0 <= i < utf16_text(units).len() ==> (#[trigger] utf16_text(units)[i] as u32) < 0x80,
    ensures
        forall|i: int| 0 <= i < units.len() ==> #[trigger] units[i] < 0x80,
    decreases units.len(),
{
    if units.len() > 0 {
        let all = utf16_text(units);
        let rest = units.skip(1);
        assert((all[0] as u32) < 0x80);
        assert(!is_lead(units[0]) && !is_trail(units[0]));
        assert forall|i: int| 0 <= i < utf16_text(rest).len() implies (#[trigger] utf16_text(
            rest,
        )[i] as u32) < 0x80 by {
            assert(all[i + 1] == utf16_text(rest)[i]);
        }
        lemma_plain_utf16(rest);
        assert forall|i: int| 0 <= i < units.len() implies #[trigger] units[i] < 0x80 by {
            if i > 0 {
                assert(rest[i - 1] == units[i]);
            }
        }
    }
}

/// The program of the application is known by its name in whatever letters, and no other
/// program is taken for it.
pub proof fn law_program_is_known_by_its_name(exe: Seq<u16>)
    ensures
        is_app_exe(exe) <==> spells_app(until_zero(exe)),
{
    reveal_strlit("zcode.exe");
    let name = "zcode.exe"@;
    let units = until_zero(exe);
    let t = utf16_text(units);
    if spells_app(units) {
        assert forall|i: int| 0 <= i < units.len() implies #[trigger] units[i] < 0x80 by {
            assert((name[i] as u32) < 0x80);
        }
        lemma_utf16_plain(units);
        assert forall|i: int| 0 <= i < t.len() implies text::ascii_lower(#[trigger] t[i])
            == text::ascii_lower(name[i]) by {
            assert(t[i] == units[i] as char);
        }
    }
    if is_app_exe(exe) {
        assert forall|i: int| 0 <= i < t.len() implies (#[trigger] t[i] as u32) < 0x80 by {
            assert(text::ascii_lower(t[i]) == text::ascii_lower(name[i]));
        }
        lemma_plain_utf16(units);
        lemma_utf16_plain(units);
        assert forall|i: int| 0 <= i < units.len() implies (#[trigger] units[i] == name[i] as u16
            || 'a' <= name[i] <= 'z' && units[i] + 32 == name[i] as u16) by {
            assert(t[i] == units[i] as char);
            assert(text::ascii_lower(t[i]) == text::ascii_lower(name[i]));
        }
    }
}

/// Whether the name of a program is that of the application.
pub fn exe_is_zcode(exe: &[u16]) -> (r: bool)
    ensures
        r == is_app_exe(exe@),
{
    let units = before_zero(exe);
    let name = decode_utf16(&units);
    text::equal_ignoring_ascii_case(name.as_str(), "zcode.exe")
}

/// The command line is that of a session process.
pub open spec fn is_session_cmd(cmd: Seq<char>) -> bool {
    text::has_sub(cmd, "zcode.cjs"@)
}

/// A process of the list is a session process.
pub open spec fn is_session_proc(p: ProcEntry) -> bool {
    is_app_exe(p.exe@) && (p.cmd matches Some(c) && is_session_cmd(c@))
}

/// The session processes of a list, in its order.
pub open spec fn session_pids(list: Seq<ProcEntry>) -> Seq<u32>
    decreases list.len(),
{
    if list.len() == 0 {
        Seq::empty()
    } else {
        let front = session_pids(list.drop_last());
        if is_session_proc(list.last()) {
            front.push(list.last().pid)
        } else {
            front
        }
    }
}

/// The session processes among those that the system lists: programs of the application
/// whose command line names the session script.
pub fn discover_cli_pids(list: &[ProcEntry]) -> (r: Vec<u32>)
    ensures
        r@ == session_pids(list@),
{
    let mut out: Vec<u32> = Vec::new();
    assert(list@.take(0) =~= Seq::empty());
    for i in 0..list.len()
        invariant
            out@ == session_pids(list@.take(i as int)),
    {
        assert(list@.take(i + 1).drop_last() =~= list@.take(i as int));
        if exe_is_zcode(&list[i].exe) {
            match &list[i].cmd {
                Some(c) => {
                    if text::contains(c.as_str(), "zcode.cjs") {
                        out.push(list[i].pid);
                    }
                },
                None => {},
            }
        }
    }
    assert(list@.take(list@.len() as int) =~= list@);
    out
}

/// Whether any process that the system lists is a program of the application.
pub fn any_zcode_process(list: &[ProcEntry]) -> (r: bool)
    ensures
        r == exists|i: int| 0 <= i < list@.len() && is_app_exe((#[trigger] list@[i]).exe@),
{
    for i in 0..list.len()
        invariant
            forall|k: int| 0 <= k < i ==> !is_app_exe((#[trigger] list@[k]).exe@),
    {
        if exe_is_zcode(&list[i].exe) {
            assert(is_app_exe(list@[i as int].exe@));
            return true;
        }
    }
    false
}

/// The kind of a process by its command line.
pub open spec fn label_of(cmd: Seq<char>) -> Seq<char> {
    if text::has_sub(cmd, "zcode.cjs"@) {
        "CLI session process"@
    } else if text::has_sub(cmd, "crashpad"@) {
        "Crash reporter process"@
    } else if text::has_sub(cmd, "--type=renderer"@) {
        "Renderer process"@
    } else if text::has_sub(cmd, "--type=gpu-process"@) {
        "GPU process"@
    } else if text::has_sub(cmd, "--type=utility"@) {
        "Utility process"@
    } else {
        "Main process"@
    }
}

/// The kind of a process by its command line.
pub fn proc_label(cmd: &str) -> (r: &'static str)
    ensures
        r@ == label_of(cmd@),
{
    if text::contains(cmd, "zcode.cjs") {
        "CLI session process"
    } else if text::contains(cmd, "crashpad") {
        "Crash reporter process"
    } else if text::contains(cmd, "--type=renderer") {
        "Renderer process"
    } else if text::contains(cmd, "--type=gpu-process") {
        "GPU process"
    } else if text::contains(cmd, "--type=utility") {
        "Utility process"
    } else {
        "Main process"
    }
}

/// Processes with their kind, without their representation.
pub open spec fn labels_view(v: Seq<(u32, String)>) -> Seq<(u32, Seq<char>)> {
    v.map_values(|e: (u32, String)| (e.0, e.1@))
}

/// The processes of the application with their kind: those of sessions, and the others. One
/// whose command line cannot be read is in neither group.
pub open spec fn groups_of(list: Seq<ProcEntry>) -> (Seq<(u32, Seq<char>)>, Seq<(u32, Seq<char>)>)
    decreases list.len(),
{
    if list.len() == 0 {
        (Seq::empty(), Seq::empty())
    } else {
        let (cli, app) = groups_of(list.drop_last());
        let p = list.last();
        match p.cmd {
            Some(c) if is_app_exe(p.exe@) => if is_session_cmd(c@) {
                (cli.push((p.pid, label_of(c@))), app)
            } else {
                (cli, app.push((p.pid, label_of(c@))))
            },
            _ => (cli, app),
        }
    }
}

/// The processes of the application with their kind, those of sessions and the others.
pub fn zcode_pid_groups(list: &[ProcEntry]) -> (r: (Vec<(u32, String)>, Vec<(u32, String)>))
    ensures
        (labels_view(r.0@), labels_view(r.1@)) == groups_of(list@),
{
    let mut cli: Vec<(u32, String)> = Vec::new();
    let mut app: Vec<(u32, String)> = Vec::new();
    proof {
        assert(list@.take(0) =~= Seq::empty());
        assert(labels_view(cli@) =~= Seq::empty());
        assert(labels_view(app@) =~= Seq::empty());
    }
    for i in 0..list.len()
        invariant
            (labels_view(cli@), labels_view(app@)) == groups_of(list@.take(i as int)),
    {
        assert(list@.take(i + 1).drop_last() =~= list@.take(i as int));
        let ghost c0 = labels_view(cli@);
        let ghost a0 = labels_view(app@);
        let pid: u32 = list[i].pid;
        match &list[i].cmd {
            Some(cmd) => {
                if exe_is_zcode(&list[i].exe) {
                    let label: String = proc_label(cmd.as_str()).to_owned();
                    let ghost lv = label@;
                    if text::contains(cmd.as_str(), "zcode.cjs") {
                        cli.push((pid, label));
                        assert(labels_view(cli@) =~= c0.push((pid, lv)));
                    } else {
                        app.push((pid, label));
                        assert(labels_view(app@) =~= a0.push((pid, lv)));
                    }
                }
            },
            None => {},
        }
    }
    assert(list@.take(list@.len() as int) =~= list@);
    (cli, app)
}

/// A number of 16 bits, the low byte first.
pub open spec fn le16(b: Seq<u8>, at: int) -> int {
    b[at] + 256 * b[at + 1]
}

/// A number of 32 bits, the low byte first.
pub open spec fn le32(b: Seq<u8>, at: int) -> int {
    le16(b, at) + 0x1_0000 * le16(b, at + 2)
}

/// A number of 64 bits, the low byte first.
pub open spec fn le64(b: Seq<u8>, at: int) -> int {
    le32(b, at) + 0x1_0000_0000 * le32(b, at + 4)
}

/// Reads a number of 16 bits.
pub fn read16(b: &[u8], at: usize) -> (r: u16)
    requires
        at + 2 <= b.len(),
    ensures
        r == le16(b@, at as int),
{
    b[at] as u16 + 256 * b[at + 1] as u16
}

/// Reads a number of 32 bits.
pub fn read32(b: &[u8], at: usize) -> (r: u32)
    requires
        at + 4 <= b.len(),
    ensures
        r == le32(b@, at as int),
{
    read16(b, at) as u32 + 0x1_0000 * read16(b, at + 2) as u32
}

/// Reads a number of 64 bits.
pub fn read64(b: &[u8], at: usize) -> (r: u64)
    requires
        at + 8 <= b.len(),
    ensures
        r == le64(b@, at as int),
{
    read32(b, at) as u64 + 0x1_0000_0000 * read32(b, at + 4) as u64
}

/// How far the reading of a command line has come: which bytes were read last.
#[derive(Clone, Copy, Debug, PartialEq, Eq, Structural)]
pub enum CmdStage {
    /// The basic information on the process.
    BasicInfo,
    /// The address of its parameters.
    ParametersPointer,
    /// The description of the command line.
    Descriptor,
    /// The command line itself.
    Line,
}

/// What the reading of a command line goes on with.
#[derive(Debug)]
pub enum CmdStep {
    /// So many bytes of the process from an address on are to be read, for the next stage.
    Read(CmdStage, u64, usize),
    /// The command line has been read.
    Done(String),
    /// It cannot be read.
    Fail,
}

/// A [`CmdStep`] with texts as their characters.
pub enum CmdStepView {
    Read(CmdStage, int, int),
    Done(Seq<char>),
    Fail,
}

impl View for CmdStep {
    type V = CmdStepView;

    open spec fn view(&self) -> CmdStepView {
        match *self {
            CmdStep::Read(stage, at, n) => CmdStepView::Read(stage, at as int, n as int),
            CmdStep::Done(s) => CmdStepView::Done(s@),
            CmdStep::Fail => CmdStepView::Fail,
        }
    }
}

/// Reading goes on at an offset from an address, unless that is null or too high.
pub open spec fn read_on(stage: CmdStage, base: int, offset: int, n: int) -> CmdStepView {
    if base == 0 || base + offset > u64::MAX {
        CmdStepView::Fail
    } else {
        CmdStepView::Read(stage, base + offset, n)
    }
}

/// The pairs of bytes as 16-bit units; an odd byte at the end is left out.
pub open spec fn units_of(b: Seq<u8>) -> Seq<u16> {
    Seq::new((b.len() / 2) as nat, |i: int| le16(b, 2 * i) as u16)
}

/// The next step after some bytes were read.
pub open spec fn cmd_step(stage: CmdStage, b: Seq<u8>) -> CmdStepView {
    match stage {
        CmdStage::BasicInfo => if b.len() < 16 {
            CmdStepView::Fail
        } else {
            read_on(CmdStage::ParametersPointer, le64(b, 8), 0x20, 8)
        },
        CmdStage::ParametersPointer => if b.len() < 8 {
            CmdStepView::Fail
        } else {
            read_on(CmdStage::Descriptor, le64(b, 0), 0x70, 16)
        },
        CmdStage::Descriptor => if b.len() < 16 || le16(b, 0) == 0 {
            CmdStepView::Fail
        } else {
            read_on(CmdStage::Line, le64(b, 8), 0, le16(b, 0))
        },
        CmdStage::Line => CmdStepView::Done(utf16_text(units_of(b))),
    }
}

fn go_on(stage: CmdStage, base: u64, offset: u64, n: usize) -> (r: CmdStep)
    ensures
        r@ == read_on(stage, base as int, offset as int, n as int),
{
    if base == 0 {
        return CmdStep::Fail;
    }
    match base.checked_add(offset) {
        Some(at) => CmdStep::Read(stage, at, n),
        None => CmdStep::Fail,
    }
}

/// What to do after some bytes of a process were read on the way to its command line: from
/// the basic information to the environment block, from there to the parameters, from
/// there to the description of the line, and from there to the line.
pub fn process_command_line(stage: CmdStage, bytes: &[u8]) -> (r: CmdStep)
    ensures
        r@ == cmd_step(stage, bytes@),
{
    match stage {
        CmdStage::BasicInfo => {
            if bytes.len() < 16 {
                return CmdStep::Fail;
            }
            go_on(CmdStage::ParametersPointer, read64(bytes, 8), 0x20, 8)
        },
        CmdStage::ParametersPointer => {
            if bytes.len() < 8 {
                return CmdStep::Fail;
            }
            go_on(CmdStage::Descriptor, read64(bytes, 0), 0x70, 16)
        },
        CmdStage::Descriptor => {
            if bytes.len() < 16 {
                return CmdStep::Fail;
            }
            let n: u16 = read16(bytes, 0);
            if n == 0 {
                return CmdStep::Fail;
            }
            go_on(CmdStage::Line, read64(bytes, 8), 0, n as usize)
        },
        CmdStage::Line => {
            let mut units: Vec<u16> = Vec::new();
            let all: usize = bytes.len();
            let n: usize = all / 2;
            for i in 0..n
                invariant
                    all == bytes@.len(),
                    n == all / 2,
                    units@ == units_of(bytes@).take(i as int),
            {
                units.push(read16(bytes, 2 * i));
                assert(units_of(bytes@).take(i + 1) =~= units_of(bytes@).take(i as int).push(
                    units_of(bytes@)[i as int],
                ));
            }
            assert(units_of(bytes@).take(n as int) =~= units_of(bytes@));
            CmdStep::Done(decode_utf16(&units))
        },
    }
}

/// The bytes from a place up to the next zero, or to the end.
pub open spec fn chunk_at(b: Seq<u8>, at: int) -> Seq<u8>
    decreases b.len() - at,
{
    if at < 0 || at >= b.len() || b[at] == 0 {
        Seq::empty()
    } else {
        seq![b[at]] + chunk_at(b, at + 1)
    }
}

/// A text of bytes stands between zeros, or at the start or the end, from a place on.
pub open spec fn holds_arg_from(b: Seq<u8>, from: int, arg: Seq<u8>) -> bool {
    exists|i: int|
        from <= i < b.len() && (i == from || b[i - 1] == 0) && b[i] != 0 && #[trigger] chunk_at(
            b,
            i,
        ) == arg
}

/// The characters of a command line argument of a session process.
pub open spec fn cli_marker() -> Seq<u8> {
    seq![0x7au8, 0x63, 0x6f, 0x64, 0x65, 0x2d, 0x63, 0x6c, 0x69]
}

/// Whether the arguments of a process, as the system packs them behind a count of four
/// bytes, hold the one that marks a session process.
pub fn argv_has_cli_marker(args: &[u8]) -> (r: bool)
    ensures
        r == (args@.len() >= 4 && holds_arg_from(args@, 4, cli_marker())),
{
    let n: usize = args.len();
    if n < 4 {
        return false;
    }
    let mut marker: Vec<u8> = Vec::new();
    marker.push(0x7a);
    marker.push(0x63);
    marker.push(0x6f);
    marker.push(0x64);
    marker.push(0x65);
    marker.push(0x2d);
    marker.push(0x63);
    marker.push(0x6c);
    marker.push(0x69);
    assert(marker@ =~= cli_marker());
    let mut pos: usize = 4;
    while pos < n
        invariant
            4 <= pos <= n,
            n == args@.len(),
            marker@ == cli_marker(),
            pos == 4 || pos == n || args@[pos - 1] == 0 || args@[pos as int] == 0,
            forall|i: int|
                4 <= i < pos && (i == 4 || args@[i - 1] == 0) && args@[i] != 0
                    ==> #[trigger] chunk_at(args@, i) != cli_marker(),
        decreases n - pos,
    {
        if args[pos] == 0 {
            pos = pos + 1;
        } else {
            let start: usize = pos;
            let mut same = true;
            assert(args@.subrange(start as int, pos as int) =~= cli_marker().take(0));
            assert(args@.subrange(start as int, pos as int) + chunk_at(args@, pos as int)
                =~= chunk_at(args@, start as int));
            while pos < n && args[pos] != 0
                invariant
                    4 <= start <= pos <= n,
                    n == args@.len(),
                    marker@ == cli_marker(),
                    args@[start as int] != 0,
                    start < n,
                    forall|i: int| start <= i < pos ==> args@[i] != 0,
                    chunk_at(args@, start as int) == args@.subrange(start as int, pos as int)
                        + chunk_at(args@, pos as int),
                    same == (pos - start <= 9 && args@.subrange(start as int, pos as int)
                        == cli_marker().take(pos - start)),
                decreases n - pos,
            {
                let k: usize = pos - start;
                let ghost front = args@.subrange(start as int, pos as int);
                proof {
                    assert(args@.subrange(start as int, pos + 1) =~= front.push(
                        args@[pos as int],
                    ));
                    assert(front + (seq![args@[pos as int]] + chunk_at(args@, pos + 1))
                        =~= args@.subrange(start as int, pos + 1) + chunk_at(args@, pos + 1));
                    if k < 9 {
                        assert(cli_marker().take(k + 1) =~= cli_marker().take(k as int).push(
                            cli_marker()[k as int],
                        ));
                        if args@.subrange(start as int, pos + 1) == cli_marker().take(k + 1) {
                            assert(args@.subrange(start as int, pos + 1).drop_last() =~= front);
                            assert(cli_marker().take(k + 1).drop_last() =~= cli_marker().take(
                                k as int,
                            ));
                            assert(args@.subrange(start as int, pos + 1).last()
                                == cli_marker()[k as int]);
                        }
                    }
                }
                if k >= 9 {
                    same = false;
                } else if args[pos] != marker[k] {
                    same = false;
                }
                pos = pos + 1;
            }
            proof {
                assert(chunk_at(args@, pos as int) =~= Seq::empty());
                assert(chunk_at(args@, start as int) =~= args@.subrange(start as int, pos as int));
            }
            if same && pos - start == 9 {
                assert(cli_marker().take(9) =~= cli_marker());
                assert(chunk_at(args@, start as int) == cli_marker());
                return true;
            }
            proof {
                if chunk_at(args@, start as int) == cli_marker() {
                    assert(cli_marker().take(9) =~= cli_marker());
                    assert(pos - start == 9);
                }
            }
        }
    }
    false
}

/// The letter in small, where it is a capital of ASCII.
pub open spec fn small(b: u8) -> u8 {
    if 0x41 <= b <= 0x5a {
        (b + 32) as u8
    } else {
        b
    }
}

/// The name of a path of bytes is that of the application.
pub open spec fn ends_with_app(path: Seq<u8>) -> bool {
    &&& path.len() >= 6
    &&& forall|i: int|
        0 <= i < 6 ==> small(#[trigger] path[path.len() - 6 + i]) == seq![
            0x2fu8,
            0x7a,
            0x63,
            0x6f,
            0x64,
            0x65,
        ][i]
}

/// The packed arguments of a process are those of the application: either its first one,
/// the path of the program, ends in the name of the application, or one of them marks a
/// session process.
pub open spec fn is_app_args(args: Seq<u8>) -> bool {
    &&& args.len() >= 4
    &&& {
        ||| (exists|e: int| #![trigger args[e]] 4 <= e < args.len() && args[e] == 0)
            && ends_with_app(chunk_at(args, 4))
        ||| holds_arg_from(args, 4, cli_marker())
    }
}

/// Whether the packed arguments of a process are those of the application.
pub fn proc_is_zcode(args: &[u8]) -> (r: bool)
    ensures
        r == is_app_args(args@),
{
    let n: usize = args.len();
    if n < 4 {
        return false;
    }
    let mut end: usize = 4;
    assert(args@.subrange(4, 4) + chunk_at(args@, 4) =~= chunk_at(args@, 4));
    while end < n && args[end] != 0
        invariant
            4 <= end <= n,
            n == args@.len(),
            forall|i: int| 4 <= i < end ==> args@[i] != 0,
            chunk_at(args@, 4) == args@.subrange(4, end as int) + chunk_at(args@, end as int),
        decreases n - end,
    {
        proof {
            let front = args@.subrange(4, end as int);
            assert(front + (seq![args@[end as int]] + chunk_at(args@, end + 1)) =~= args@.subrange(
                4,
                end + 1,
            ) + chunk_at(args@, end + 1));
        }
        end = end + 1;
    }
    proof {
        assert(chunk_at(args@, end as int) =~= Seq::empty());
        assert(chunk_at(args@, 4) =~= args@.subrange(4, end as int));
    }
    if end < n && end >= 10 {
        let ghost path = chunk_at(args@, 4);
        let a: u8 = lower(args[end - 6]);
        let b: u8 = lower(args[end - 5]);
        let c: u8 = lower(args[end - 4]);
        let d: u8 = lower(args[end - 3]);
        let e: u8 = lower(args[end - 2]);
        let f: u8 = lower(args[end - 1]);
        let here = a == 0x2f && b == 0x7a && c == 0x63 && d == 0x6f && e == 0x64 && f == 0x65;
        proof {
            assert(path[path.len() - 6 + 0] == args@[end - 6]);
            assert(path[path.len() - 6 + 1] == args@[end - 5]);
            assert(path[path.len() - 6 + 2] == args@[end - 4]);
            assert(path[path.len() - 6 + 3] == args@[end - 3]);
            assert(path[path.len() - 6 + 4] == args@[end - 2]);
            assert(path[path.len() - 6 + 5] == args@[end - 1]);
            assert(args@[end as int] == 0);
        }
        if here {
            return true;
        }
    }
    argv_has_cli_marker(args)
}

fn lower(b: u8) -> (r: u8)
    ensures
        r == small(b),
{
    if 0x41 <= b && b <= 0x5a {
        b + 32
    } else {
        b
    }
}

/// A process that is open: its number, and when it was started. The number may be given to
/// another process later, which then has another start.
#[derive(Clone, Copy, Debug, PartialEq, Eq, Structural)]
pub struct ProcHandle {
    pub pid: u32,
    pub started: u64,
}

/// Opens a process, given when it was started if the system knows it.
pub fn open_proc(pid: u32, started: Option<u64>) -> (r: Option<ProcHandle>)
    ensures
        r == (match started {
            Some(t) => Some(ProcHandle { pid, started: t }),
            None => None,
        }),
{
    match started {
        Some(t) => Some(ProcHandle { pid, started: t }),
        None => None,
    }
}

/// The bytes that an open process has written, given what the system says of its number now:
/// when the process was started, and the bytes. There are none if no process has the number
/// any more, or another one.
pub fn io_write_bytes(h: &ProcHandle, now: Option<(u64, u64)>) -> (r: Option<u64>)
    ensures
        r == (match now {
            Some((started, bytes)) if started == h.started => Some(bytes),
            _ => None,
        }),
        r == written_by(*h, now),
{
    match now {
        Some((started, bytes)) => if started == h.started {
            Some(bytes)
        } else {
            None
        },
        None => None,
    }
}

/// The sum of the sizes of files.
pub open spec fn sum_sizes(sizes: Seq<u64>) -> int
    decreases sizes.len(),
{
    if sizes.len() == 0 {
        0
    } else {
        sum_sizes(sizes.drop_last()) + sizes.last()
    }
}

proof fn lemma_sizes_nonneg(sizes: Seq<u64>)
    ensures
        sum_sizes(sizes) >= 0,
    decreases sizes.len(),
{
    if sizes.len() > 0 {
        lemma_sizes_nonneg(sizes.drop_last());
    }
}

/// The size of all tracked files together.
pub fn tracked_files_total(sizes: &[u64]) -> (r: u64)
    ensures
        r == rate::clip(sum_sizes(sizes@)),
{
    let mut total: u64 = 0;
    assert(sizes@.take(0) =~= Seq::empty());
    for i in 0..sizes.len()
        invariant
            total == rate::clip(sum_sizes(sizes@.take(i as int))),
    {
        proof {
            assert(sizes@.take(i + 1).drop_last() =~= sizes@.take(i as int));
            lemma_sizes_nonneg(sizes@.take(i as int));
        }
        total = total.saturating_add(sizes[i]);
    }
    assert(sizes@.take(sizes@.len() as int) =~= sizes@);
    total
}

/// The processes of a list of packed arguments that are marked as session processes.
pub open spec fn marked_pids(list: Seq<(i32, Vec<u8>)>) -> Seq<u32>
    decreases list.len(),
{
    if list.len() == 0 {
        Seq::empty()
    } else {
        let front = marked_pids(list.drop_last());
        let (pid, args) = list.last();
        if pid > 0 && args@.len() >= 4 && holds_arg_from(args@, 4, cli_marker()) {
            front.push(pid as u32)
        } else {
            front
        }
    }
}

/// The session processes where the system gives packed arguments in place of command lines.
pub fn discover_marked_pids(list: &[(i32, Vec<u8>)]) -> (r: Vec<u32>)
    ensures
        r@ == marked_pids(list@),
{
    let mut out: Vec<u32> = Vec::new();
    assert(list@.take(0) =~= Seq::empty());
    for i in 0..list.len()
        invariant
            out@ == marked_pids(list@.take(i as int)),
    {
        assert(list@.take(i + 1).drop_last() =~= list@.take(i as int));
        let pid: i32 = list[i].0;
        if pid > 0 && argv_has_cli_marker(&list[i].1) {
            out.push(pid as u32);
        }
    }
    assert(list@.take(list@.len() as int) =~= list@);
    out
}

/// Whether any process is one of the application, where the system gives packed arguments.
pub fn any_zcode_args(list: &[(i32, Vec<u8>)]) -> (r: bool)
    ensures
        r == exists|i: int|
            0 <= i < list@.len() && (#[trigger] list@[i]).0 > 0 && is_app_args(list@[i].1@),
{
    for i in 0..list.len()
        invariant
            forall|k: int|
                0 <= k < i ==> !((#[trigger] list@[k]).0 > 0 && is_app_args(list@[k].1@)),
    {
        if list[i].0 > 0 && proc_is_zcode(&list[i].1) {
            assert(list@[i as int].0 > 0 && is_app_args(list@[i as int].1@));
            return true;
        }
    }
    false
}

/// The processes of sessions are those of the program whose command line names its script, in
/// the order of the list.
pub proof fn law_session_processes_are_found(list: Seq<ProcEntry>)
    ensures
        session_pids(list) == list.filter(
            |p: ProcEntry|
                is_app_exe(p.exe@) && p.cmd is Some && text::has_sub(p.cmd->0@, "zcode.cjs"@),
        ).map_values(|p: ProcEntry| p.pid),
    decreases list.len(),
{
    reveal(Seq::filter);
    let keep = |p: ProcEntry|
        is_app_exe(p.exe@) && p.cmd is Some && text::has_sub(p.cmd->0@, "zcode.cjs"@);
    let f = |p: ProcEntry| p.pid;
    if list.len() > 0 {
        let d = list.drop_last();
        law_session_processes_are_found(d);
        if keep(list.last()) {
            assert(list.filter(keep).map_values(f) =~= d.filter(keep).map_values(f).push(
                list.last().pid,
            ));
        }
    } else {
        assert(list.filter(keep).map_values(f) =~= Seq::empty());
    }
}

/// Each process of the program whose command line is known stands in one of two groups, that of
/// the sessions or that of the rest, in the order of the list and with its label.
pub proof fn law_processes_are_grouped(list: Seq<ProcEntry>)
    ensures
        groups_of(list).0 == list.filter(
            |p: ProcEntry|
                is_app_exe(p.exe@) && p.cmd is Some && text::has_sub(p.cmd->0@, "zcode.cjs"@),
        ).map_values(|p: ProcEntry| (p.pid, label_of(p.cmd->0@))),
        groups_of(list).1 == list.filter(
            |p: ProcEntry|
                is_app_exe(p.exe@) && p.cmd is Some && !text::has_sub(p.cmd->0@, "zcode.cjs"@),
        ).map_values(|p: ProcEntry| (p.pid, label_of(p.cmd->0@))),
    decreases list.len(),
{
    reveal(Seq::filter);
    let one = |p: ProcEntry|
        is_app_exe(p.exe@) && p.cmd is Some && text::has_sub(p.cmd->0@, "zcode.cjs"@);
    let two = |p: ProcEntry|
        is_app_exe(p.exe@) && p.cmd is Some && !text::has_sub(p.cmd->0@, "zcode.cjs"@);
    let f = |p: ProcEntry| (p.pid, label_of(p.cmd->0@));
    if list.len() > 0 {
        let d = list.drop_last();
        law_processes_are_grouped(d);
        if one(list.last()) {
            assert(list.filter(one).map_values(f) =~= d.filter(one).map_values(f).push(
                f(list.last()),
            ));
        }
        if two(list.last()) {
            assert(list.filter(two).map_values(f) =~= d.filter(two).map_values(f).push(
                f(list.last()),
            ));
        }
    } else {
        assert(list.filter(one).map_values(f) =~= Seq::empty());
        assert(list.filter(two).map_values(f) =~= Seq::empty());
    }
}

/// Numbers are stored with their lowest byte first.
pub proof fn law_lowest_byte_first(b: Seq<u8>, at: int)
    ensures
        le16(b, at) == b[at] + 0x100 * b[at + 1],
        le32(b, at) == b[at] + 0x100 * b[at + 1] + 0x1_0000 * b[at + 2] + 0x100_0000 * b[at + 3],
        le64(b, at) == b[at] + 0x100 * b[at + 1] + 0x1_0000 * b[at + 2] + 0x100_0000 * b[at + 3]
            + 0x1_0000_0000 * (b[at + 4] + 0x100 * b[at + 5] + 0x1_0000 * b[at + 6] + 0x100_0000
            * b[at + 7]),
{
}

/// A unit that is no half of a pair is a character, two halves are one, and a lone half is the
/// replacement character.
pub proof fn law_units_are_characters(u: u16, w: u16, rest: Seq<u16>)
    ensures
        !(0xd800 <= u <= 0xdfff) ==> utf16_text(seq![u] + rest).len() == utf16_text(rest).len() + 1
            && utf16_text(seq![u] + rest)[0] as int == u && utf16_text(seq![u] + rest).skip(1)
            == utf16_text(rest),
        0xd800 <= u <= 0xdbff && 0xdc00 <= w <= 0xdfff ==> utf16_text(seq![u, w] + rest).skip(1)
            == utf16_text(rest) && utf16_text(seq![u, w] + rest)[0] as int == 0x1_0000 + 0x400 * (u
            - 0xd800) + (w - 0xdc00),
        0xdc00 <= u <= 0xdfff ==> utf16_text(seq![u] + rest) == seq!['\u{fffd}'] + utf16_text(rest),
{
    assert((seq![u] + rest).skip(1) =~= rest);
    assert((seq![u, w] + rest).skip(2) =~= rest);
    let one = utf16_text(seq![u] + rest);
    let two = utf16_text(seq![u, w] + rest);
    if !(0xd800 <= u <= 0xdfff) {
        assert(one.skip(1) =~= utf16_text(rest));
    }
    if 0xd800 <= u <= 0xdbff && 0xdc00 <= w <= 0xdfff {
        assert(two.skip(1) =~= utf16_text(rest));
    }
}

proof fn lemma_chunk(b: Seq<u8>, at: int, n: int)
    requires
        0 <= at <= at + n <= b.len(),
        forall|i: int| at <= i < at + n ==> #[trigger] b[i] != 0,
        at + n == b.len() || b[at + n] == 0,
    ensures
        chunk_at(b, at) == b.subrange(at, at + n),
    decreases n,
{
    if n > 0 {
        lemma_chunk(b, at + 1, n - 1);
        assert(chunk_at(b, at) =~= b.subrange(at, at + n));
    } else {
        assert(b.subrange(at, at + n) =~= Seq::empty());
    }
}

proof fn lemma_chunk_ends(b: Seq<u8>, at: int)
    requires
        0 <= at <= b.len(),
    ensures
        ({
            let n = chunk_at(b, at).len() as int;
            &&& at + n <= b.len()
            &&& chunk_at(b, at) == b.subrange(at, at + n)
            &&& at + n == b.len() || b[at + n] == 0
        }),
    decreases b.len() - at,
{
    let n = chunk_at(b, at).len() as int;
    if at < b.len() && b[at] != 0 {
        lemma_chunk_ends(b, at + 1);
        assert(chunk_at(b, at) =~= b.subrange(at, at + n));
    } else {
        assert(b.subrange(at, at) =~= Seq::empty());
    }
}

/// A process is marked where one of its arguments, which zeros part, is the marker; the four bytes
/// in front of them do not count.
pub proof fn law_marker_is_an_argument(args: Seq<u8>, at: int)
    ensures
        4 <= at && at + 9 <= args.len() && args.subrange(at, at + 9) == seq![
            0x7au8,
            0x63,
            0x6f,
            0x64,
            0x65,
            0x2d,
            0x63,
            0x6c,
            0x69,
        ] && (at == 4 || args[at - 1] == 0) && (at + 9 == args.len() || args[at + 9] == 0)
            ==> holds_arg_from(args, 4, cli_marker()),
        holds_arg_from(args, 4, cli_marker()) ==> exists|i: int|
            4 <= i && i + 9 <= args.len() && #[trigger] args.subrange(i, i + 9) == cli_marker() && (i
                == 4 || args[i - 1] == 0) && (i + 9 == args.len() || args[i + 9] == 0),
{
    let m = cli_marker();
    if 4 <= at && at + 9 <= args.len() && args.subrange(at, at + 9) == m && (at == 4 || args[at - 1]
        == 0) && (at + 9 == args.len() || args[at + 9] == 0) {
        assert forall|i: int| at <= i < at + 9 implies #[trigger] args[i] != 0 by {
            assert(args.subrange(at, at + 9)[i - at] == args[i]);
        }
        lemma_chunk(args, at, 9);
        assert(chunk_at(args, at) == m);
    }
    if holds_arg_from(args, 4, m) {
        let i = choose|i: int|
            4 <= i < args.len() && (i == 4 || args[i - 1] == 0) && args[i] != 0 && #[trigger] chunk_at(
                args,
                i,
            ) == m;
        lemma_chunk_ends(args, i);
        assert(args.subrange(i, i + 9) == m);
    }
}

/// The bytes of files are those of all of them together.
pub proof fn law_sizes_add_up(sizes: Seq<u64>)
    ensures
        sum_sizes(sizes) == sizes.fold_left(0int, |a: int, n: u64| a + n),
    decreases sizes.len(),
{
    if sizes.len() > 0 {
        law_sizes_add_up(sizes.drop_last());
    }
}

/// What a process has written, as a number and a start that were read say.
pub open spec fn written_by(h: ProcHandle, now: Option<(u64, u64)>) -> Option<u64> {
    match now {
        Some((started, bytes)) if started == h.started => Some(bytes),
        _ => None,
    }
}

/// A process whose number was given to another one has written nothing more.
pub proof fn law_number_of_a_process_is_not_enough(h: ProcHandle, started: u64, bytes: u64)
    ensures
        started == h.started ==> written_by(h, Some((started, bytes))) == Some(bytes),
        started != h.started ==> written_by(h, Some((started, bytes))) is None,
        written_by(h, None) is None,
{
}

} // verus!
