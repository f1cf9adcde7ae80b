//! Starting with the system: off, at login, or when the application is seen to run.

use vstd::prelude::*;

use crate::procs;
use crate::procs::ProcEntry;
use crate::text;

verus! {

/// The argument that makes the panel wait for the application.
pub const FOLLOW_ARG: &'static str = "--zcode-follow";

/// The name of the entry that starts the panel.
pub const AUTOSTART_NAME: &'static str = "zcode-speed-panel";

/// The label of the agent that starts the panel.
pub const MAC_PLIST_LABEL: &'static str = "com.zcode.speedpanel.autostart";

/// Whether and how the panel starts with the system.
#[derive(Clone, Copy, Debug, PartialEq, Eq, Structural)]
pub enum AutostartMode {
    /// It does not.
    Off,
    /// At login.
    Boot,
    /// At login, but out of sight until the application runs.
    Follow,
}

/// The name of a mode.
pub open spec fn mode_name(m: AutostartMode) -> Seq<char> {
    match m {
        AutostartMode::Off => "off"@,
        AutostartMode::Boot => "boot"@,
        AutostartMode::Follow => "follow"@,
    }
}

/// The mode of a name; what is no such name is off.
pub open spec fn mode_named(s: Seq<char>) -> AutostartMode {
    if text::trimmed(s) == "boot"@ {
        AutostartMode::Boot
    } else if text::trimmed(s) == "follow"@ {
        AutostartMode::Follow
    } else {
        AutostartMode::Off
    }
}

/// The mode that a registered command shows.
pub open spec fn mode_shown(command: Option<Seq<char>>) -> AutostartMode {
    match command {
        None => AutostartMode::Off,
        Some(c) => if text::has_sub(c, FOLLOW_ARG@) {
            AutostartMode::Follow
        } else {
            AutostartMode::Boot
        },
    }
}

impl AutostartMode {
    /// The name of the mode.
    pub fn as_str(self) -> (r: &'static str)
        ensures
            r@ == mode_name(self),
    {
        match self {
            AutostartMode::Off => "off",
            AutostartMode::Boot => "boot",
            AutostartMode::Follow => "follow",
        }
    }

    /// The mode of a name; what is no such name is off.
    pub fn parse(s: &str) -> (r: AutostartMode)
        ensures
            r == mode_named(s@),
    {
        let cs = text::chars_of(s);
        let t = text::trim(&cs);
        let name = text::string_of(&t);
        if text::same(name.as_str(), "boot") {
            AutostartMode::Boot
        } else if text::same(name.as_str(), "follow") {
            AutostartMode::Follow
        } else {
            AutostartMode::Off
        }
    }
}

/// Whether the panel was told to wait for the application.
pub fn follow_requested(args: &[String]) -> (r: bool)
    ensures
        r == exists|i: int| 0 <= i < args@.len() && (#[trigger] args@[i])@ == FOLLOW_ARG@,
{
    for i in 0..args.len()
        invariant
            forall|k: int| 0 <= k < i ==> (#[trigger] args@[k])@ != FOLLOW_ARG@,
    {
        if text::same(args[i].as_str(), FOLLOW_ARG) {
            assert(args@[i as int]@ == FOLLOW_ARG@);
            return true;
        }
    }
    false
}

/// Whether the application runs.
pub fn zcode_running(list: &[ProcEntry]) -> (r: bool)
    ensures
        r == exists|i: int| 0 <= i < list@.len() && procs::is_app_exe((#[trigger] list@[i]).exe@),
{
    procs::any_zcode_process(list)
}

/// The mode that is in effect, by the command that is registered.
pub fn current_mode(registered: Option<&str>) -> (r: AutostartMode)
    ensures
        r == mode_shown(
            match registered {
                Some(s) => Some(s@),
                None => None,
            },
        ),
{
    match registered {
        None => AutostartMode::Off,
        Some(c) => if text::contains(c, FOLLOW_ARG) {
            AutostartMode::Follow
        } else {
            AutostartMode::Boot
        },
    }
}

/// The command that starts the panel: its path in quotation marks, and the argument if it is
/// to wait.
pub open spec fn command_line(exe: Seq<char>, follow: bool) -> Seq<char> {
    let quoted = seq!['"'] + exe + seq!['"'];
    if follow {
        quoted + seq![' '] + FOLLOW_ARG@
    } else {
        quoted
    }
}

/// The command that starts the panel.
pub fn run_command(exe: &str, follow: bool) -> (r: String)
    ensures
        r@ == command_line(exe@, follow),
{
    let mut s = String::new();
    s.push('"');
    text::push_text(&mut s, exe);
    s.push('"');
    if follow {
        s.push(' ');
        text::push_text(&mut s, FOLLOW_ARG);
    }
    assert(s@ =~= command_line(exe@, follow));
    s
}

/// A character as it is written in XML.
pub open spec fn escaped_char(c: char) -> Seq<char> {
    if c == '&' {
        "&amp;"@
    } else if c == '<' {
        "&lt;"@
    } else if c == '>' {
        "&gt;"@
    } else {
        seq![c]
    }
}

/// A text as it is written in XML.
pub open spec fn escaped(s: Seq<char>) -> Seq<char>
    decreases s.len(),
{
    if s.len() == 0 {
        Seq::empty()
    } else {
        escaped(s.drop_last()) + escaped_char(s.last())
    }
}

/// A text as it is written in XML.
pub fn xml_escape(s: &str) -> (r: String)
    ensures
        r@ == escaped(s@),
{
    let cs = text::chars_of(s);
    let mut out = String::new();
    assert(cs@.take(0) =~= Seq::empty());
    for i in 0..cs.len()
        invariant
            cs@ == s@,
            out@ == escaped(cs@.take(i as int)),
    {
        assert(cs@.take(i + 1).drop_last() =~= cs@.take(i as int));
        let c = cs[i];
        if c == '&' {
            text::push_text(&mut out, "&amp;");
        } else if c == '<' {
            text::push_text(&mut out, "&lt;");
        } else if c == '>' {
            text::push_text(&mut out, "&gt;");
        } else {
            out.push(c);
            assert(out@ =~= escaped(cs@.take(i as int)) + seq![c]);
        }
    }
    assert(cs@.take(cs@.len() as int) =~= cs@);
    out
}

/// Pieces, each led by an opening bracket.
pub open spec fn bracketed(pieces: Seq<Seq<char>>) -> Seq<char>
    decreases pieces.len(),
{
    if pieces.len() == 0 {
        Seq::empty()
    } else {
        bracketed(pieces.drop_last()).push('<') + pieces.last()
    }
}

/// The beginning of the description of the agent.
pub open spec fn plist_head(exe: Seq<char>) -> Seq<Seq<char>> {
    seq![
        "?xml version=\"1.0\" encoding=\"UTF-8\"?>\n"@,
        "!DOCTYPE plist PUBLIC \"-//Apple//DTD PLIST 1.0//EN\" \"http://www.apple.com/DTDs/PropertyList-1.0.dtd\">\n"@,
        "plist version=\"1.0\">"@,
        "dict>"@,
        "key>Label"@,
        "/key>"@,
        "string>"@ + MAC_PLIST_LABEL@,
        "/string>"@,
        "key>ProgramArguments"@,
        "/key>"@,
        "array>"@,
        "string>"@ + escaped(exe),
        "/string>"@,
    ]
}

/// The argument in the description of the agent.
pub open spec fn plist_argument(follow: bool) -> Seq<Seq<char>> {
    if follow {
        seq!["string>"@ + escaped(FOLLOW_ARG@), "/string>"@]
    } else {
        Seq::empty()
    }
}

/// The end of the description of the agent.
pub open spec fn plist_tail() -> Seq<Seq<char>> {
    seq![
        "/array>"@,
        "key>RunAtLoad"@,
        "/key>"@,
        "true/>"@,
        "/dict>"@,
        "/plist>\n"@,
    ]
}

/// The description of the agent that starts the panel.
pub open spec fn plist_text(exe: Seq<char>, follow: bool) -> Seq<char> {
    bracketed(plist_head(exe) + plist_argument(follow) + plist_tail())
}

spec fn texts(v: Seq<String>) -> Seq<Seq<char>> {
    v.map_values(|s: String| s@)
}

fn append_pair(v: &mut Vec<String>, a: &str, b: &str)
    ensures
        texts(final(v)@) == texts(old(v)@).push(a@ + b@),
{
    let ghost before = texts(v@);
    let mut s = a.to_owned();
    text::push_text(&mut s, b);
    let ghost sv = s@;
    v.push(s);
    assert(texts(v@) =~= before.push(sv));
}

fn append_one(v: &mut Vec<String>, a: &str)
    ensures
        texts(final(v)@) == texts(old(v)@).push(a@),
{
    let ghost before = texts(v@);
    v.push(a.to_owned());
    assert(texts(v@) =~= before.push(a@));
}

/// The description of the agent that starts the panel, where the system has agents.
pub fn plist(exe: &str, follow: bool) -> (r: String)
    ensures
        r@ == plist_text(exe@, follow),
{
    let mut v: Vec<String> = Vec::new();
    let path = xml_escape(exe);
    let arg = xml_escape(FOLLOW_ARG);
    append_one(&mut v, "?xml version=\"1.0\" encoding=\"UTF-8\"?>\n");
    append_one(
        &mut v,
        "!DOCTYPE plist PUBLIC \"-//Apple//DTD PLIST 1.0//EN\" \"http://www.apple.com/DTDs/PropertyList-1.0.dtd\">\n",
    );
    append_one(&mut v, "plist version=\"1.0\">");
    append_one(&mut v, "dict>");
    append_one(&mut v, "key>Label");
    append_one(&mut v, "/key>");
    append_pair(&mut v, "string>", MAC_PLIST_LABEL);
    append_one(&mut v, "/string>");
    append_one(&mut v, "key>ProgramArguments");
    append_one(&mut v, "/key>");
    append_one(&mut v, "array>");
    append_pair(&mut v, "string>", path.as_str());
    append_one(&mut v, "/string>");
    assert(texts(v@) =~= plist_head(exe@));
    if follow {
        append_pair(&mut v, "string>", arg.as_str());
        append_one(&mut v, "/string>");
    }
    assert(texts(v@) =~= plist_head(exe@) + plist_argument(follow));
    append_one(&mut v, "/array>");
    append_one(&mut v, "key>RunAtLoad");
    append_one(&mut v, "/key>");
    append_one(&mut v, "true/>");
    append_one(&mut v, "/dict>");
    append_one(&mut v, "/plist>\n");
    assert(texts(v@) =~= plist_head(exe@) + plist_argument(follow) + plist_tail());
    let ghost all = texts(v@);
    let mut out = String::new();
    assert(all.take(0) =~= Seq::empty());
    for i in 0..v.len()
        invariant
            all == texts(v@),
            out@ == bracketed(all.take(i as int)),
    {
        assert(all.take(i + 1).drop_last() =~= all.take(i as int));
        out.push('<');
        text::push_text(&mut out, v[i].as_str());
    }
    assert(all.take(all.len() as int) =~= all);
    out
}

/// The strings among pieces, each with a space behind it.
pub open spec fn strings_among(pieces: Seq<Seq<char>>) -> Seq<char>
    decreases pieces.len(),
{
    if pieces.len() == 0 {
        Seq::empty()
    } else {
        let front = strings_among(pieces.drop_last());
        if text::has_prefix(pieces.last(), "string>"@) {
            front + pieces.last().skip("string>"@.len() as int) + seq![' ']
        } else {
            front
        }
    }
}

/// The command in the description of an agent: its strings, one after the other.
pub open spec fn command_in(content: Seq<char>) -> Seq<char> {
    text::trimmed(strings_among(text::pieces(content, seq!['<']).skip(1)))
}

/// The command in the description of an agent: its strings, one after the other.
pub fn registered_command(content: &str) -> (r: String)
    ensures
        r@ == command_in(content@),
{
    let cs = text::chars_of(content);
    let mut seps: Vec<char> = Vec::new();
    seps.push('<');
    assert(seps@ =~= seq!['<']);
    let ps = text::split(&cs, &seps);
    let ghost pv = text::piece_views(ps@).skip(1);
    let mark = text::chars_of("string>");
    let mut out: Vec<char> = Vec::new();
    let mut i: usize = 1;
    assert(pv.take(0) =~= Seq::empty());
    while i < ps.len()
        invariant
            1 <= i <= ps@.len(),
            pv == text::piece_views(ps@).skip(1),
            mark@ == "string>"@,
            out@ == strings_among(pv.take(i - 1)),
        decreases ps@.len() - i,
    {
        proof {
            assert(pv.take(i as int).drop_last() =~= pv.take(i - 1));
            assert(pv[i - 1] == ps@[i as int]@);
        }
        let piece: &Vec<char> = &ps[i];
        let whole = text::string_of(piece);
        if text::starts_with(whole.as_str(), "string>") {
            let mut rest = text::part(piece, mark.len(), piece.len());
            assert(rest@ =~= piece@.skip(mark@.len() as int));
            let ghost before = out@;
            out.append(&mut rest);
            out.push(' ');
            assert(out@ =~= before + piece@.skip(mark@.len() as int) + seq![' ']);
        }
        i = i + 1;
    }
    assert(pv.take(pv.len() as int) =~= pv);
    let t = text::trim(&out);
    text::string_of(&t)
}

/// What is to be registered for a mode.
#[derive(Debug)]
pub enum Registration {
    /// Nothing: what is registered is removed.
    Remove,
    /// A command.
    Command(String),
    /// The description of an agent.
    Agent(String),
}

/// What is to be registered for a mode: a command, or an agent where the system has such.
pub fn set_mode(mode: AutostartMode, exe: &str, agents: bool) -> (r: Registration)
    ensures
        match r {
            Registration::Remove => mode == AutostartMode::Off,
            Registration::Command(c) => mode != AutostartMode::Off && !agents && c@ == command_line(
                exe@,
                mode == AutostartMode::Follow,
            ),
            Registration::Agent(c) => mode != AutostartMode::Off && agents && c@ == plist_text(
                exe@,
                mode == AutostartMode::Follow,
            ),
        },
{
    let follow = match mode {
        AutostartMode::Off => {
            return Registration::Remove;
        },
        AutostartMode::Boot => false,
        AutostartMode::Follow => true,
    };
    if agents {
        Registration::Agent(plist(exe, follow))
    } else {
        Registration::Command(run_command(exe, follow))
    }
}

/// A mode is found again by its name.
pub proof fn law_mode_is_found_by_its_name(m: AutostartMode)
    ensures
        mode_named(mode_name(m)) == m,
{
    reveal_strlit("off");
    reveal_strlit("boot");
    reveal_strlit("follow");
    let s = mode_name(m);
    assert(!text::white(s[0]));
    assert(!text::white(s.last()));
    assert(text::trimmed(s) == s);
    assert("off"@.len() == 3 && "boot"@.len() == 4 && "follow"@.len() == 6);
}

/// A command that is registered shows the mode it was made for, unless the path of the panel
/// itself holds the argument.
pub proof fn law_registered_command_shows_its_mode(exe: Seq<char>, follow: bool)
    requires
        !text::has_sub(exe, FOLLOW_ARG@),
    ensures
        mode_shown(Some(command_line(exe, follow))) == (if follow {
            AutostartMode::Follow
        } else {
            AutostartMode::Boot
        }),
{
    let c = command_line(exe, follow);
    let arg = FOLLOW_ARG@;
    reveal_strlit("--zcode-follow");
    if follow {
        let at = exe.len() as int + 3;
        assert(c.subrange(at, at + arg.len()) =~= arg);
        assert(text::stands_at(c, arg, at));
    } else if text::has_sub(c, arg) {
        let i = choose|i: int| #[trigger] text::stands_at(c, arg, i);
        let m = c.subrange(i, i + arg.len());
        assert(m[0] == c[i]);
        assert(m[13] == c[i + 13]);
        assert(c[0] == '"' && c[exe.len() as int + 1] == '"');
        assert(exe.subrange(i - 1, i - 1 + arg.len()) =~= m);
        assert(text::stands_at(exe, arg, i - 1));
    }
}

spec fn free_of(s: Seq<char>, c: char) -> bool {
    forall|i: int| 0 <= i < s.len() ==> #[trigger] s[i] != c
}

proof fn lemma_pieces_extend(s: Seq<char>, t: Seq<char>, seps: Seq<char>)
    requires
        forall|i: int| 0 <= i < t.len() ==> !seps.contains(#[trigger] t[i]),
    ensures
        text::pieces(s + t, seps) == text::pieces(s, seps).drop_last().push(
            text::pieces(s, seps).last() + t,
        ),
    decreases t.len(),
{
    text::lemma_pieces_nonempty(s, seps);
    let p = text::pieces(s, seps);
    if t.len() == 0 {
        assert(s + t =~= s);
        assert(p.last() + t =~= p.last());
        assert(p.drop_last().push(p.last()) =~= p);
    } else {
        let d = t.drop_last();
        lemma_pieces_extend(s, d, seps);
        let q = text::pieces(s + d, seps);
        assert((s + t).drop_last() =~= s + d);
        assert((s + t).last() == t.last());
        assert(!seps.contains(t[t.len() - 1]));
        assert(q.last() == p.last() + d);
        assert((p.last() + d).push(t.last()) =~= p.last() + t);
        assert(q.drop_last() =~= p.drop_last());
    }
}

proof fn lemma_pieces_of_bracketed(v: Seq<Seq<char>>)
    requires
        forall|i: int| 0 <= i < v.len() ==> free_of(#[trigger] v[i], '<'),
    ensures
        text::pieces(bracketed(v), seq!['<']) == seq![Seq::<char>::empty()] + v,
    decreases v.len(),
{
    let seps = seq!['<'];
    if v.len() == 0 {
        assert(text::pieces(bracketed(v), seps) =~= seq![Seq::<char>::empty()] + v);
    } else {
        let d = v.drop_last();
        assert forall|i: int| 0 <= i < d.len() implies free_of(#[trigger] d[i], '<') by {
            assert(d[i] == v[i]);
        }
        lemma_pieces_of_bracketed(d);
        let b = bracketed(d).push('<');
        assert(b.drop_last() =~= bracketed(d));
        assert(seps.contains('<')) by {
            assert(seps[0] == '<');
        }
        let q = text::pieces(b, seps);
        assert(q == (seq![Seq::<char>::empty()] + d).push(Seq::empty()));
        let x = v.last();
        assert(free_of(v[v.len() - 1], '<'));
        lemma_pieces_extend(b, x, seps);
        assert(q.last() + x =~= x);
        assert(q.drop_last().push(x) =~= seq![Seq::<char>::empty()] + v);
    }
}

proof fn lemma_strings_sum(a: Seq<Seq<char>>, b: Seq<Seq<char>>)
    ensures
        strings_among(a + b) == strings_among(a) + strings_among(b),
    decreases b.len(),
{
    if b.len() == 0 {
        assert(a + b =~= a);
        assert(strings_among(a) + strings_among(b) =~= strings_among(a));
    } else {
        assert((a + b).drop_last() =~= a + b.drop_last());
        lemma_strings_sum(a, b.drop_last());
        assert(strings_among(a + b) =~= strings_among(a) + strings_among(b));
    }
}

proof fn lemma_no_strings(v: Seq<Seq<char>>)
    requires
        forall|i: int| 0 <= i < v.len() ==> !text::has_prefix(#[trigger] v[i], "string>"@),
    ensures
        strings_among(v) == Seq::<char>::empty(),
    decreases v.len(),
{
    if v.len() > 0 {
        let d = v.drop_last();
        assert forall|i: int| 0 <= i < d.len() implies !text::has_prefix(
            #[trigger] d[i],
            "string>"@,
        ) by {
            assert(d[i] == v[i]);
        }
        lemma_no_strings(d);
        assert(!text::has_prefix(v[v.len() - 1], "string>"@));
    }
}

proof fn lemma_one_string(x: Seq<char>)
    ensures
        strings_among(seq!["string>"@ + x]) == x + seq![' '],
{
    let m = "string>"@;
    let p = m + x;
    let v = seq![p];
    assert(v.drop_last() =~= Seq::empty());
    assert(v.last() == p);
    assert(p.subrange(0, m.len() as int) =~= m);
    assert(text::has_prefix(p, m));
    assert(p.skip(m.len() as int) =~= x);
    assert(strings_among(v.drop_last()) =~= Seq::empty());
    assert(strings_among(v) =~= x + seq![' ']);
}

proof fn lemma_escaped_free(s: Seq<char>)
    ensures
        free_of(escaped(s), '<'),
    decreases s.len(),
{
    reveal_strlit("&amp;");
    reveal_strlit("&lt;");
    reveal_strlit("&gt;");
    if s.len() > 0 {
        lemma_escaped_free(s.drop_last());
    }
}

proof fn lemma_escaped_plain(s: Seq<char>)
    requires
        free_of(s, '&'),
        free_of(s, '<'),
        free_of(s, '>'),
    ensures
        escaped(s) == s,
    decreases s.len(),
{
    if s.len() > 0 {
        lemma_escaped_plain(s.drop_last());
        assert(s[s.len() - 1] == s.last());
        assert(s.drop_last() + seq![s.last()] =~= s);
    } else {
        assert(escaped(s) =~= s);
    }
}

/// An end of a text as it is written in XML, if it closes no escape, is an end of the text.
proof fn lemma_escaped_end(s: Seq<char>, end: Seq<char>)
    requires
        free_of(end, ';'),
        end.len() <= escaped(s).len(),
        escaped(s).skip(escaped(s).len() - end.len()) == end,
    ensures
        end.len() <= s.len(),
        s.skip(s.len() - end.len()) == end,
    decreases end.len(),
{
    reveal_strlit("&amp;");
    reveal_strlit("&lt;");
    reveal_strlit("&gt;");
    let e = escaped(s);
    if end.len() == 0 {
        assert(s.skip(s.len() as int) =~= end);
    } else {
        let tail = e.skip(e.len() - end.len());
        assert(tail.last() == e.last());
        assert(end[end.len() - 1] == end.last());
        let d = s.drop_last();
        let last = escaped_char(s.last());
        assert(e.last() == last.last());
        assert(last =~= seq![s.last()]);
        let rest = end.drop_last();
        assert(escaped(d).skip(escaped(d).len() - rest.len()) =~= tail.drop_last());
        assert(free_of(rest, ';')) by {
            assert forall|i: int| 0 <= i < rest.len() implies rest[i] != ';' by {
                assert(rest[i] == end[i]);
            }
        }
        lemma_escaped_end(d, rest);
        assert(s.skip(s.len() - end.len()) =~= d.skip(d.len() - rest.len()).push(s.last()));
        assert(rest.push(s.last()) =~= end);
    }
}

/// Escapes bring no occurrence of a text that is longer than they are and shares neither their
/// first nor their last character.
proof fn lemma_escaped_holds_no_more(s: Seq<char>, pat: Seq<char>)
    requires
        free_of(pat, '&'),
        free_of(pat, ';'),
        pat.len() > 5,
        text::has_sub(escaped(s), pat),
    ensures
        text::has_sub(s, pat),
    decreases s.len(),
{
    reveal_strlit("&amp;");
    reveal_strlit("&lt;");
    reveal_strlit("&gt;");
    let e = escaped(s);
    let i = choose|i: int| #[trigger] text::stands_at(e, pat, i);
    let m = e.subrange(i, i + pat.len());
    let d = s.drop_last();
    let front = escaped(d);
    let last = escaped_char(s.last());
    if i + pat.len() <= front.len() {
        assert(front.subrange(i, i + pat.len()) =~= m);
        assert(text::stands_at(front, pat, i));
        lemma_escaped_holds_no_more(d, pat);
        let k = choose|k: int| #[trigger] text::stands_at(d, pat, k);
        assert(s.subrange(k, k + pat.len()) =~= d.subrange(k, k + pat.len()));
        assert(text::stands_at(s, pat, k));
    } else {
        assert(last.len() <= 5);
        assert(i <= front.len());
        assert(m[front.len() - i] == e[front.len() as int]);
        assert(e[front.len() as int] == last[0]);
        assert(pat[front.len() - i] != '&');
        assert(last =~= seq![s.last()]);
        assert(e.skip(e.len() - pat.len()) =~= m);
        lemma_escaped_end(s, pat);
        let k = s.len() - pat.len();
        assert(s.subrange(k, k + pat.len()) =~= s.skip(k));
        assert(text::stands_at(s, pat, k));
    }
}

proof fn lemma_head(exe: Seq<char>)
    ensures
        forall|i: int| 0 <= i < plist_head(exe).len() ==> free_of(#[trigger] plist_head(exe)[i], '<'),
        strings_among(plist_head(exe)) == MAC_PLIST_LABEL@ + seq![' '] + escaped(exe) + seq![' '],
{
    reveal_strlit("string>");
    reveal_strlit("?xml version=\"1.0\" encoding=\"UTF-8\"?>\n");
    reveal_strlit(
        "!DOCTYPE plist PUBLIC \"-//Apple//DTD PLIST 1.0//EN\" \"http://www.apple.com/DTDs/PropertyList-1.0.dtd\">\n",
    );
    reveal_strlit("plist version=\"1.0\">");
    reveal_strlit("dict>");
    reveal_strlit("key>Label");
    reveal_strlit("/key>");
    reveal_strlit("/string>");
    reveal_strlit("key>ProgramArguments");
    reveal_strlit("array>");
    reveal_strlit("com.zcode.speedpanel.autostart");
    lemma_escaped_free(exe);
    let h = plist_head(exe);
    let a = h.subrange(0, 6);
    let l = seq![h[6]];
    let b = h.subrange(7, 11);
    let e = seq![h[11]];
    let z = seq![h[12]];
    assert(h =~= a + l + b + e + z);
    let m = "string>"@;
    assert forall|p: Seq<char>| #[trigger] text::has_prefix(p, m) implies p.len() > 0 && p[0]
        == 's' by {
        assert(p.subrange(0, m.len() as int)[0] == p[0]);
    }
    assert forall|i: int| 0 <= i < a.len() implies !text::has_prefix(#[trigger] a[i], m) by {
        assert(a[i] == h[i]);
        assert(h[i][0] != 's');
    }
    assert forall|i: int| 0 <= i < b.len() implies !text::has_prefix(#[trigger] b[i], m) by {
        assert(b[i] == h[i + 7]);
        assert(h[i + 7][0] != 's');
    }
    lemma_no_strings(a);
    lemma_no_strings(b);
    assert(!text::has_prefix(z[0], m)) by {
        assert(z[0][0] != 's');
    }
    lemma_no_strings(z);
    lemma_one_string(MAC_PLIST_LABEL@);
    lemma_one_string(escaped(exe));
    lemma_strings_sum(a, l);
    lemma_strings_sum(a + l, b);
    lemma_strings_sum(a + l + b, e);
    lemma_strings_sum(a + l + b + e, z);
    assert(strings_among(h) =~= MAC_PLIST_LABEL@ + seq![' '] + escaped(exe) + seq![' ']);
}

proof fn lemma_argument(follow: bool)
    ensures
        forall|i: int|
            0 <= i < plist_argument(follow).len() ==> free_of(
                #[trigger] plist_argument(follow)[i],
                '<',
            ),
        strings_among(plist_argument(follow)) == (if follow {
            FOLLOW_ARG@ + seq![' ']
        } else {
            Seq::empty()
        }),
{
    reveal_strlit("string>");
    reveal_strlit("/string>");
    reveal_strlit("--zcode-follow");
    lemma_escaped_plain(FOLLOW_ARG@);
    if follow {
        let m = "string>"@;
        let e = seq![plist_argument(true)[0]];
        let z = seq![plist_argument(true)[1]];
        assert(plist_argument(true) =~= e + z);
        assert(!text::has_prefix(z[0], m)) by {
            if text::has_prefix(z[0], m) {
                assert(z[0].subrange(0, m.len() as int)[0] == z[0][0]);
            }
        }
        lemma_no_strings(z);
        lemma_one_string(FOLLOW_ARG@);
        lemma_strings_sum(e, z);
        assert(strings_among(plist_argument(true)) =~= FOLLOW_ARG@ + seq![' ']);
    }
}

proof fn lemma_tail()
    ensures
        forall|i: int| 0 <= i < plist_tail().len() ==> free_of(#[trigger] plist_tail()[i], '<'),
        strings_among(plist_tail()) == Seq::<char>::empty(),
{
    reveal_strlit("string>");
    reveal_strlit("/array>");
    reveal_strlit("key>RunAtLoad");
    reveal_strlit("/key>");
    reveal_strlit("true/>");
    reveal_strlit("/dict>");
    reveal_strlit("/plist>\n");
    let m = "string>"@;
    let t = plist_tail();
    assert forall|i: int| 0 <= i < t.len() implies !text::has_prefix(#[trigger] t[i], m) by {
        assert(t[i][0] != 's');
        if text::has_prefix(t[i], m) {
            assert(t[i].subrange(0, m.len() as int)[0] == t[i][0]);
        }
    }
    lemma_no_strings(t);
}

proof fn lemma_command_in_plist(exe: Seq<char>, follow: bool)
    ensures
        command_in(plist_text(exe, follow)) == text::trimmed(
            MAC_PLIST_LABEL@ + seq![' '] + escaped(exe) + seq![' '] + (if follow {
                FOLLOW_ARG@ + seq![' ']
            } else {
                Seq::empty()
            }),
        ),
{
    let h = plist_head(exe);
    let a = plist_argument(follow);
    let t = plist_tail();
    let all = h + a + t;
    lemma_head(exe);
    lemma_argument(follow);
    lemma_tail();
    assert forall|i: int| 0 <= i < all.len() implies free_of(#[trigger] all[i], '<') by {
        if i < h.len() {
            assert(all[i] == h[i]);
        } else if i < h.len() + a.len() {
            assert(all[i] == a[i - h.len()]);
        } else {
            assert(all[i] == t[i - h.len() - a.len()]);
        }
    }
    lemma_pieces_of_bracketed(all);
    assert((seq![Seq::<char>::empty()] + all).skip(1) =~= all);
    lemma_strings_sum(h, a);
    lemma_strings_sum(h + a, t);
    assert(strings_among(all) =~= MAC_PLIST_LABEL@ + seq![' '] + escaped(exe) + seq![' '] + (
    if follow {
        FOLLOW_ARG@ + seq![' ']
    } else {
        Seq::empty()
    }));
}

proof fn lemma_argument_not_there(exe: Seq<char>)
    requires
        !text::has_sub(exe, FOLLOW_ARG@),
    ensures
        !text::has_sub(MAC_PLIST_LABEL@ + seq![' '] + exe + seq![' '], FOLLOW_ARG@),
{
    reveal_strlit("--zcode-follow");
    reveal_strlit("com.zcode.speedpanel.autostart");
    let l = MAC_PLIST_LABEL@;
    let arg = FOLLOW_ARG@;
    let s = l + seq![' '] + exe + seq![' '];
    assert(free_of(arg, ' '));
    assert(free_of(l, '-'));
    if text::has_sub(s, arg) {
        let i = choose|i: int| #[trigger] text::stands_at(s, arg, i);
        let m = s.subrange(i, i + arg.len());
        assert(m[0] == s[i]);
        assert(arg[0] == '-');
        let p = l.len() as int;
        let q = s.len() - 1;
        assert(s[p] == ' ' && s[q] == ' ');
        assert(i > p) by {
            if i < p {
                assert(s[i] == l[i]);
            }
        }
        assert(i + arg.len() <= q) by {
            if i + arg.len() > q {
                assert(m[q - i] == s[q]);
                assert(arg[q - i] != ' ');
            }
        }
        assert(exe.subrange(i - p - 1, i - p - 1 + arg.len()) =~= m);
        assert(text::stands_at(exe, arg, i - p - 1));
    }
}

/// The agent that is written shows the mode it was made for, unless the path of the panel
/// itself holds the argument.
pub proof fn law_agent_shows_its_mode(exe: Seq<char>, follow: bool)
    requires
        !text::has_sub(exe, FOLLOW_ARG@),
    ensures
        mode_shown(Some(command_in(plist_text(exe, follow)))) == (if follow {
            AutostartMode::Follow
        } else {
            AutostartMode::Boot
        }),
{
    let arg = FOLLOW_ARG@;
    let front = MAC_PLIST_LABEL@ + seq![' '] + escaped(exe) + seq![' '];
    lemma_command_in_plist(exe, follow);
    if follow {
        reveal_strlit("--zcode-follow");
        reveal_strlit("com.zcode.speedpanel.autostart");
        let body = front + arg;
        let all = front + (arg + seq![' ']);
        assert(all.drop_last() =~= body);
        assert(all[0] == 'c');
        assert(body.last() == 'w');
        reveal_with_fuel(text::strip_back, 2);
        assert(all.last() == ' ');
        assert(text::trimmed(all) == body);
        assert(body.subrange(front.len() as int, body.len() as int) =~= arg);
        assert(text::stands_at(body, arg, front.len() as int));
    } else {
        reveal_strlit("--zcode-follow");
        if text::has_sub(escaped(exe), arg) {
            lemma_escaped_holds_no_more(exe, arg);
        }
        lemma_argument_not_there(escaped(exe));
        assert(front + Seq::<char>::empty() =~= front);
        text::lemma_trimmed_is_part(front);
        let t = text::trimmed(front);
        if text::has_sub(t, arg) {
            let i = choose|i: int| #[trigger] text::stands_at(t, arg, i);
            let lo = choose|lo: int|
                0 <= lo && lo + t.len() <= front.len() && t == #[trigger] front.subrange(
                    lo,
                    lo + t.len(),
                );
            assert(front.subrange(lo + i, lo + i + arg.len()) =~= t.subrange(i, i + arg.len()));
            assert(text::stands_at(front, arg, lo + i));
        }
    }
}

proof fn lemma_escaped_char(c: char)
    ensures
        !escaped_char(c).contains('<'),
        !escaped_char(c).contains('>'),
        escaped_char(c).len() > 0,
{
    reveal_strlit("&amp;");
    reveal_strlit("&lt;");
    reveal_strlit("&gt;");
    let e = escaped_char(c);
    assert forall|i: int| 0 <= i < e.len() implies e[i] != '<' && e[i] != '>' by {}
}

/// A text that is escaped holds no markup, and one without special characters is as it was; each
/// part of a text is escaped for itself.
pub proof fn law_escaped_text_is_plain(s: Seq<char>, t: Seq<char>)
    ensures
        !escaped(s).contains('<'),
        !escaped(s).contains('>'),
        (forall|i: int|
            0 <= i < s.len() ==> #[trigger] s[i] != '&' && s[i] != '<' && s[i] != '>') ==> escaped(s)
            == s,
        escaped(s + t) == escaped(s) + escaped(t),
    decreases s.len() + t.len(),
{
    if s.len() > 0 {
        let d = s.drop_last();
        law_escaped_text_is_plain(d, Seq::empty());
        lemma_escaped_char(s.last());
        let a = escaped(d);
        let b = escaped_char(s.last());
        assert forall|i: int| 0 <= i < (a + b).len() implies (a + b)[i] != '<' && (a + b)[i]
            != '>' by {
            if i < a.len() {
                assert(a.contains(a[i]));
            } else {
                assert(b.contains(b[i - a.len()]));
            }
        }
        if forall|i: int| 0 <= i < s.len() ==> #[trigger] s[i] != '&' && s[i] != '<' && s[i] != '>' {
            assert forall|i: int| 0 <= i < d.len() implies #[trigger] d[i] != '&' && d[i] != '<'
                && d[i] != '>' by {
                assert(s[i] == d[i]);
            }
            assert(s[s.len() - 1] != '&');
            assert(escaped(s) =~= s);
        }
    } else {
        assert(escaped(s) =~= s);
    }
    if t.len() > 0 {
        law_escaped_text_is_plain(s, t.drop_last());
        assert((s + t).drop_last() =~= s + t.drop_last());
        assert(escaped(s) + escaped(t.drop_last()) + escaped_char(t.last()) =~= escaped(s) + (
        escaped(t.drop_last()) + escaped_char(t.last())));
    } else {
        assert(s + t =~= s);
        assert(escaped(s) + escaped(t) =~= escaped(s));
    }
}

} // verus!
