//! Scaffolding of a new robot crate: its arguments, and the files it writes.
use vstd::prelude::*;
use crate::cli::path::{part_views, rel_path, relative, Part, PartView};
use crate::cli::replay::{arg_at, texts};
use crate::text::{chars_of, same_text, starts_with, text_of, text_opt};

verus! {

// --- Arguments -----------------------------------------------------------------------

/// What to scaffold and where.
#[derive(Debug)]
pub struct ScaffoldArgs {
    /// Name of the robot.
    pub name: String,
    /// Directory to write to; the current one if absent.
    pub path: Option<String>,
}

/// Why the arguments were refused.
#[derive(Debug, PartialEq, Eq)]
pub enum ScaffoldError {
    /// `--path` without a value.
    PathValue,
    /// An argument that is not understood.
    Unexpected(String),
    /// No name was given.
    NameMissing,
    /// The name holds something else than letters, digits, `_` and `-`.
    NameIllegal,
}

/// What a [`ScaffoldError`] says.
pub ghost enum Refusal {
    PathValue,
    Unexpected(Seq<char>),
    NameMissing,
    NameIllegal,
}

impl View for ScaffoldError {
    type V = Refusal;

    open spec fn view(&self) -> Refusal {
        match *self {
            ScaffoldError::PathValue => Refusal::PathValue,
            ScaffoldError::Unexpected(s) => Refusal::Unexpected(s@),
            ScaffoldError::NameMissing => Refusal::NameMissing,
            ScaffoldError::NameIllegal => Refusal::NameIllegal,
        }
    }
}

/// Whether `c` is an ASCII letter or digit.
pub open spec fn is_alphanumeric(c: char) -> bool {
    'a' <= c <= 'z' || 'A' <= c <= 'Z' || '0' <= c <= '9'
}

/// Whether `c` may stand in a name.
pub open spec fn name_char(c: char) -> bool {
    is_alphanumeric(c) || c == '_' || c == '-'
}

/// Whether a name is alphanumeric, but for `_` and `-`.
pub open spec fn legal_name(s: Seq<char>) -> bool {
    forall|i: int| 0 <= i < s.len() ==> name_char(#[trigger] s[i])
}

fn name_is_legal(s: &[char]) -> (r: bool)
    ensures
        r == legal_name(s@),
{
    let mut i: usize = 0;
    while i < s.len()
        invariant
            i <= s@.len(),
            forall|j: int| 0 <= j < i ==> name_char(#[trigger] s@[j]),
        decreases s@.len() - i,
    {
        let c: char = s[i];
        if !(('a' <= c && c <= 'z') || ('A' <= c && c <= 'Z') || ('0' <= c && c <= '9') || c == '_'
            || c == '-') {
            assert(!name_char(s@[i as int]));
            return false;
        }
        i = i + 1;
    }
    true
}

/// A name and a directory, each as far as it was given.
pub type Given = (Option<Seq<char>>, Option<Seq<char>>);

/// What the arguments from `i` on make of what was given before.
pub open spec fn given_from(args: Seq<Seq<char>>, i: int, g: Given) -> Result<Given, Refusal>
    decreases args.len() - i,
{
    if i >= args.len() || i < 0 {
        Ok(g)
    } else if args[i] == "--path"@ {
        match arg_at(args, i + 1) {
            Some(s) => given_from(args, i + 2, (g.0, Some(s))),
            None => Err(Refusal::PathValue),
        }
    } else if "--path="@.is_prefix_of(args[i]) {
        given_from(args, i + 1, (g.0, Some(args[i].skip("--path="@.len() as int))))
    } else if g.0 is None && !"--"@.is_prefix_of(args[i]) {
        given_from(args, i + 1, (Some(args[i]), g.1))
    } else {
        Err(Refusal::Unexpected(args[i]))
    }
}

/// What the arguments ask for.
pub open spec fn given(args: Seq<Seq<char>>) -> Result<(Seq<char>, Option<Seq<char>>), Refusal> {
    match given_from(args, 0, (None, None)) {
        Err(e) => Err(e),
        Ok(g) => match g.0 {
            None => Err(Refusal::NameMissing),
            Some(name) => if legal_name(name) {
                Ok((name, g.1))
            } else {
                Err(Refusal::NameIllegal)
            },
        },
    }
}

/// Parses the arguments of the `scaffold` command.
pub fn parse_args(args: &[String]) -> (r: Result<ScaffoldArgs, ScaffoldError>)
    ensures
        match r {
            Ok(a) => given(texts(args@)) == Ok::<(Seq<char>, Option<Seq<char>>), Refusal>(
                (a.name@, text_opt(a.path)),
            ),
            Err(e) => given(texts(args@)) == Err::<(Seq<char>, Option<Seq<char>>), Refusal>(e@),
        },
{
    let ghost all = texts(args@);
    let mut name: Option<String> = None;
    let mut path: Option<String> = None;
    let ghost mut so_far: Given = (None, None);
    let key: Vec<char> = chars_of("--path=");
    let dashes: Vec<char> = chars_of("--");
    let mut i: usize = 0;
    while i < args.len()
        invariant
            i <= args@.len(),
            all == texts(args@),
            key@ == "--path="@,
            dashes@ == "--"@,
            so_far == (text_opt(name), text_opt(path)),
            given_from(all, 0, (None, None)) == given_from(all, i as int, so_far),
        decreases args@.len() - i,
    {
        let arg: &str = args[i].as_str();
        assert(all[i as int] == arg@);
        if same_text(arg, "--path") {
            if args.len() - i < 2 {
                return Err(ScaffoldError::PathValue);
            }
            assert(all[i + 1] == args@[i + 1]@);
            path = Some(args[i + 1].as_str().to_owned());
            i = i + 2;
        } else {
            let chars: Vec<char> = chars_of(arg);
            if starts_with(chars.as_slice(), key.as_slice()) {
                let value: &[char] = vstd::slice::slice_subrange(
                    chars.as_slice(),
                    key.len(),
                    chars.len(),
                );
                assert(value@ =~= arg@.skip(key@.len() as int));
                path = Some(text_of(value));
            } else if name.is_none() && !starts_with(chars.as_slice(), dashes.as_slice()) {
                name = Some(arg.to_owned());
            } else {
                return Err(ScaffoldError::Unexpected(arg.to_owned()));
            }
            i = i + 1;
        }
        proof {
            so_far = (text_opt(name), text_opt(path));
        }
    }
    match name {
        Some(n) => {
            let chars: Vec<char> = chars_of(n.as_str());
            if name_is_legal(chars.as_slice()) {
                Ok(ScaffoldArgs { name: n, path })
            } else {
                Err(ScaffoldError::NameIllegal)
            }
        },
        None => Err(ScaffoldError::NameMissing),
    }
}

// --- The name of the struct ----------------------------------------------------------

/// What `char::to_uppercase` gives for `c`.
pub uninterp spec fn unicode_upper(c: char) -> Seq<char>;

/// `char::to_uppercase`: the characters that `c` is in upper case by the Unicode
/// tables. Which these are, is left to the name.
#[verifier::external_body]
fn unicode_uppercase(c: char) -> (r: Vec<char>)
    ensures
        r@ == unicode_upper(c),
{
    c.to_uppercase().collect()
}

/// `c` in upper case. An ASCII letter is mapped directly, another character by
/// the Unicode tables.
pub open spec fn upper(c: char) -> Seq<char> {
    if 'a' <= c <= 'z' {
        seq![(c as u8 - 32) as u8 as char]
    } else if c <= '\u{7f}' {
        seq![c]
    } else {
        unicode_upper(c)
    }
}

/// A name without `_` and `-`, with the letter behind each of them in upper
/// case, and the first letter too if `up` holds.
pub open spec fn camel(s: Seq<char>, up: bool) -> Seq<char>
    decreases s.len(),
{
    if s.len() == 0 {
        Seq::empty()
    } else if s[0] == '_' || s[0] == '-' {
        camel(s.drop_first(), true)
    } else if up {
        upper(s[0]) + camel(s.drop_first(), false)
    } else {
        seq![s[0]] + camel(s.drop_first(), false)
    }
}

/// A name in UpperCamelCase, or `Bot` if nothing is left of it.
pub open spec fn capitalized(s: Seq<char>) -> Seq<char> {
    let c = camel(s, true);
    if c.len() == 0 {
        "Bot"@
    } else {
        c
    }
}

/// Converts a name to UpperCamelCase for a generated struct identifier
/// (`demo_bot` becomes `DemoBot`, `my-bot` becomes `MyBot`).
pub fn capitalize(s: &str) -> (r: String)
    ensures
        r@ == capitalized(s@),
{
    let chars: Vec<char> = chars_of(s);
    let mut out: Vec<char> = Vec::new();
    let mut up: bool = true;
    let mut i: usize = 0;
    proof {
        assert(s@.skip(0) =~= s@);
        assert(out@ + camel(s@, true) =~= camel(s@, true));
    }
    while i < chars.len()
        invariant
            i <= chars@.len(),
            chars@ == s@,
            camel(s@, true) == out@ + camel(s@.skip(i as int), up),
        decreases chars@.len() - i,
    {
        let c: char = chars[i];
        let ghost before = out@;
        let ghost rest = s@.skip(i + 1);
        let ghost was = up;
        assert(s@.skip(i as int).drop_first() =~= rest);
        if c == '_' || c == '-' {
            up = true;
        } else {
            if up {
                if 'a' <= c && c <= 'z' {
                    out.push((c as u8 - 32) as char);
                } else if c <= '\u{7f}' {
                    out.push(c);
                } else {
                    let big: Vec<char> = unicode_uppercase(c);
                    out.extend_from_slice(big.as_slice());
                }
                up = false;
            } else {
                out.push(c);
            }
            proof {
                let step = if was {
                    upper(c)
                } else {
                    seq![c]
                };
                assert(out@ =~= before + step);
                assert(before + (step + camel(rest, false)) =~= out@ + camel(rest, false));
            }
        }
        i = i + 1;
    }
    assert(out@ + Seq::<char>::empty() =~= out@);
    if out.len() == 0 {
        return "Bot".to_owned();
    }
    text_of(out.as_slice())
}

proof fn lemma_camel(s: Seq<char>, up: bool)
    requires
        legal_name(s),
    ensures
        forall|i: int| 0 <= i < camel(s, up).len() ==> is_alphanumeric(#[trigger] camel(s, up)[i]),
        up && camel(s, up).len() > 0 ==> !('a' <= camel(s, up)[0] <= 'z'),
    decreases s.len(),
{
    if s.len() > 0 {
        let rest = s.drop_first();
        let c = s[0];
        assert(name_char(c));
        assert forall|i: int| 0 <= i < rest.len() implies name_char(#[trigger] rest[i]) by {
            assert(rest[i] == s[i + 1]);
        }
        if c == '_' || c == '-' {
            lemma_camel(rest, true);
        } else {
            lemma_camel(rest, false);
            let more = camel(rest, false);
            let step = if up {
                upper(c)
            } else {
                seq![c]
            };
            assert(step.len() == 1);
            assert(is_alphanumeric(step[0]));
            assert(camel(s, up) == step + more);
            assert forall|i: int| 0 <= i < camel(s, up).len() implies is_alphanumeric(
                #[trigger] camel(s, up)[i],
            ) by {
                if i > 0 {
                    assert(camel(s, up)[i] == more[i - 1]);
                }
            }
        }
    }
}

/// The struct name of a legal name is made of letters and digits, at least one,
/// and starts with no small letter.
pub proof fn law_struct_name_is_plain(name: Seq<char>)
    requires
        legal_name(name),
    ensures
        capitalized(name).len() > 0,
        forall|i: int|
            0 <= i < capitalized(name).len() ==> is_alphanumeric(#[trigger] capitalized(name)[i]),
        !('a' <= capitalized(name)[0] <= 'z'),
{
    lemma_camel(name, true);
    reveal_strlit("Bot");
    assert("Bot"@.len() == 3 && "Bot"@[0] == 'B' && "Bot"@[1] == 'o' && "Bot"@[2] == 't');
}

// --- Templates -----------------------------------------------------------------------

/// `s` with `with` in place of each `pat`, from the left.
pub open spec fn replaced(s: Seq<char>, pat: Seq<char>, with: Seq<char>) -> Seq<char>
    decreases s.len(),
{
    if s.len() == 0 || pat.len() == 0 {
        s
    } else if pat.is_prefix_of(s) {
        with + replaced(s.skip(pat.len() as int), pat, with)
    } else {
        seq![s[0]] + replaced(s.drop_first(), pat, with)
    }
}

/// Puts `with` in place of each `pat` in `s`.
fn replace(s: &[char], pat: &str, with: &str) -> (r: Vec<char>)
    ensures
        r@ == replaced(s@, pat@, with@),
{
    let p: Vec<char> = chars_of(pat);
    let w: Vec<char> = chars_of(with);
    if p.len() == 0 {
        return vstd::slice::slice_to_vec(s);
    }
    let mut out: Vec<char> = Vec::new();
    let mut i: usize = 0;
    proof {
        assert(s@.skip(0) =~= s@);
        assert(out@ + replaced(s@, p@, w@) =~= replaced(s@, p@, w@));
    }
    while i < s.len()
        invariant
            i <= s@.len(),
            p@ == pat@,
            w@ == with@,
            p@.len() > 0,
            replaced(s@, p@, w@) == out@ + replaced(s@.skip(i as int), p@, w@),
        decreases s@.len() - i,
    {
        let rest: &[char] = vstd::slice::slice_subrange(s, i, s.len());
        assert(rest@ =~= s@.skip(i as int));
        let ghost before = out@;
        if starts_with(rest, p.as_slice()) {
            out.extend_from_slice(w.as_slice());
            proof {
                let more = s@.skip(i + p@.len());
                assert(rest@.skip(p@.len() as int) =~= more);
                assert(out@ =~= before + w@);
                assert(before + (w@ + replaced(more, p@, w@)) =~= out@ + replaced(more, p@, w@));
            }
            i = i + p.len();
        } else {
            out.push(s[i]);
            proof {
                let more = s@.skip(i + 1);
                assert(rest@.drop_first() =~= more);
                assert(before + (seq![rest@[0]] + replaced(more, p@, w@)) =~= out@ + replaced(
                    more,
                    p@,
                    w@,
                ));
            }
            i = i + 1;
        }
    }
    assert(s@.skip(i as int) =~= Seq::<char>::empty());
    assert(out@ + Seq::<char>::empty() =~= out@);
    out
}

/// Manifest template.
pub const CARGO_TOML: &'static str = "\
[package]
name = \"__NAME__\"
version = \"0.1.0\"
edition = \"2024\"
license = \"MIT OR Apache-2.0\"

[dependencies]
tpt-t-core = { path = \"__CORE__\" }
tpt-t-ring = { path = \"__RING__\" }
tpt-t-macros = { path = \"__MACROS__\" }
rkyv = { version = \"0.8\", features = [\"bytecheck\"] }

[[bin]]
name = \"__NAME__\"
path = \"src/main.rs\"
";

/// Program template.
pub const MAIN_RS: &'static str = "\
//! __NAME__ — robot scaffolded by `tpt-t-cli scaffold __NAME__`.
//!
//! Replace `Camera`/`Motor` with real device types and implement
//! `RobotDevice` for each so the generated `launch()` drives them on pinned
//! cores.

use rkyv::{Archive, Serialize, Deserialize};
use tpt_t::Robot;
use tpt_t_core::profile::CoreProfile;
use tpt_t_core::robot::RobotDevice;

#[derive(Archive, Serialize, Deserialize)]
#[repr(C)]
pub struct Frame {
    pub seq: u32,
    pub pixels: [u8; 32],
}

#[derive(Archive, Serialize, Deserialize)]
#[repr(C)]
pub struct Command {
    pub throttle: f32,
}

/// Camera device: implement `run` to ingest frames and push them into the
/// generated `cam` channel.
pub struct Camera;

impl RobotDevice for Camera {
    fn run(self) {
        // TODO: capture frames, then `Self::push_cam(&channels, frame)`.
    }
}

/// Motor device: implement `run` to consume commands from the `arm` channel.
pub struct Motor;

impl RobotDevice for Motor {
    fn run(self) {
        // TODO: pull `Command`s via `Self::pop_arm(&channels)` and actuate.
    }
}

#[derive(Robot)]
#[robot(thread_per_core = true)]
pub struct __STRUCT__ {
    #[camera(id = 0, element = Frame, capacity = 256)]
    pub cam: Camera,
    #[motor(id = 1, element = Command, capacity = 256)]
    pub arm: Motor,
}

fn main() {
    let bot = __STRUCT__ { cam: Camera, arm: Motor };

    // Lock-free channels generated from the struct fields.
    let channels = bot.channels();

    // Zero-copy serialize a frame straight into a pre-allocated wire buffer.
    let mut buf = tpt_t_core::ser::AlignedBuf::new();
    let _ = __STRUCT__::serialize_cam(&Frame { seq: 1, pixels: [0; 32] }, &mut buf);
    let _ = __STRUCT__::push_cam(&channels, Frame { seq: 1, pixels: [0; 32] });
    let _ = __STRUCT__::pop_cam(&channels);

    // Pin each device to its core-profile role and run.
    let profile = CoreProfile::parse(\"video = 0\\ncontrol = 1\\n\")
        .expect(\"valid core profile\");
    let _handles = bot
        .launch(&profile)
        .expect(\"launch should pin and spawn device threads\");
    // In a real runtime, join `_handles` to await shutdown.
}
";

/// Where the workspace crates are expected if no workspace was found.
pub open spec fn default_dep(dep: Seq<char>) -> Seq<char> {
    "../"@ + dep
}

/// Where the crates of a workspace are, by the components of their absolute
/// paths.
#[derive(Debug)]
pub struct Workspace {
    pub core: Vec<Part>,
    pub ring: Vec<Part>,
    pub macros: Vec<Part>,
}

/// Where a crate of the workspace is, as seen from the new project.
pub open spec fn dep_path(dir: Seq<PartView>, dep: Option<Seq<PartView>>, name: Seq<char>) -> Seq<
    char,
> {
    match dep {
        Some(d) => relative(dir, d),
        None => default_dep(name),
    }
}

fn dep_path_text(dir: &[Part], dep: Option<&[Part]>, name: &str) -> (r: String)
    ensures
        r@ == dep_path(
            part_views(dir@),
            match dep {
                Some(d) => Some(part_views(d@)),
                None => None,
            },
            name@,
        ),
{
    let mut fallback: String = "../".to_owned();
    fallback.append(name);
    match dep {
        Some(d) => match rel_path(dir, d) {
            Some(p) => p,
            None => fallback,
        },
        None => fallback,
    }
}

/// A project to write.
#[derive(Debug)]
pub struct Project {
    /// Its manifest.
    pub cargo_toml: String,
    /// Its program.
    pub main_rs: String,
}

/// The manifest of a project.
pub open spec fn manifest_text(
    name: Seq<char>,
    core: Seq<char>,
    ring: Seq<char>,
    macros: Seq<char>,
) -> Seq<char> {
    let a = replaced(CARGO_TOML@, "__NAME__"@, name);
    let b = replaced(a, "__STRUCT__"@, capitalized(name));
    let c = replaced(b, "__CORE__"@, core);
    let d = replaced(c, "__RING__"@, ring);
    replaced(d, "__MACROS__"@, macros)
}

/// The program of a project.
pub open spec fn program_text(name: Seq<char>) -> Seq<char> {
    replaced(replaced(MAIN_RS@, "__NAME__"@, name), "__STRUCT__"@, capitalized(name))
}

/// The components of a crate of the workspace, if a workspace was found.
pub open spec fn dep_parts(found: Option<&Workspace>, pick: spec_fn(Workspace) -> Seq<Part>) -> Option<
    Seq<PartView>,
> {
    match found {
        Some(w) => Some(part_views(pick(*w))),
        None => None,
    }
}

/// The project that `name` makes in the directory with the components `dir`. The
/// workspace crates are taken relative to it, if a workspace was found.
pub fn project(name: &str, dir: &[Part], found: Option<&Workspace>) -> (r: Project)
    ensures
        r.cargo_toml@ == manifest_text(
            name@,
            dep_path(
                part_views(dir@),
                dep_parts(found, |w: Workspace| w.core@),
                "crates/tpt-t-core"@,
            ),
            dep_path(
                part_views(dir@),
                dep_parts(found, |w: Workspace| w.ring@),
                "crates/tpt-t-ring"@,
            ),
            dep_path(
                part_views(dir@),
                dep_parts(found, |w: Workspace| w.macros@),
                "crates/tpt-t-macros"@,
            ),
        ),
        r.main_rs@ == program_text(name@),
{
    let struct_name: String = capitalize(name);
    let (c_dep, r_dep, m_dep): (Option<&[Part]>, Option<&[Part]>, Option<&[Part]>) = match found {
        Some(w) => (Some(w.core.as_slice()), Some(w.ring.as_slice()), Some(w.macros.as_slice())),
        None => (None, None, None),
    };
    let core: String = dep_path_text(dir, c_dep, "crates/tpt-t-core");
    let ring: String = dep_path_text(dir, r_dep, "crates/tpt-t-ring");
    let macros: String = dep_path_text(dir, m_dep, "crates/tpt-t-macros");
    let a: Vec<char> = replace(chars_of(CARGO_TOML).as_slice(), "__NAME__", name);
    let b: Vec<char> = replace(a.as_slice(), "__STRUCT__", struct_name.as_str());
    let c: Vec<char> = replace(b.as_slice(), "__CORE__", core.as_str());
    let d: Vec<char> = replace(c.as_slice(), "__RING__", ring.as_str());
    let e: Vec<char> = replace(d.as_slice(), "__MACROS__", macros.as_str());
    let f: Vec<char> = replace(chars_of(MAIN_RS).as_slice(), "__NAME__", name);
    let g: Vec<char> = replace(f.as_slice(), "__STRUCT__", struct_name.as_str());
    Project { cargo_toml: text_of(e.as_slice()), main_rs: text_of(g.as_slice()) }
}

/// What is said when a project was written.
pub open spec fn done_text(name: Seq<char>, dir: Seq<char>) -> Seq<char> {
    "scaffolded robot \""@ + name + "\" at "@ + dir + "\n\nnext steps:\n\tcd "@ + dir
        + "\n\tcargo build\n\t# wire your Camera/Motor types and run with `cargo run --release`"@
}

/// What is said when a project was written. The name is shown in quotes as it
/// stands, since a legal name holds nothing to escape.
pub fn done(name: &str, dir: &str) -> (r: String)
    requires
        legal_name(name@),
    ensures
        r@ == done_text(name@, dir@),
{
    let mut s: String = "scaffolded robot \"".to_owned();
    s.append(name);
    s.append("\" at ");
    s.append(dir);
    s.append("\n\nnext steps:\n\tcd ");
    s.append(dir);
    s.append("\n\tcargo build\n\t# wire your Camera/Motor types and run with `cargo run --release`");
    s
}

/// The name of a struct starts anew with a capital behind every hyphen and
/// underscore, which are left out; letters and digits are kept in order, and
/// only the first of each part can change, to its capital.
pub proof fn law_parts_are_capitalized(a: Seq<char>, b: Seq<char>, c: char, up: bool)
    ensures
        camel(a + seq!['-'] + b, up) == camel(a, up) + camel(b, true),
        camel(a + seq!['_'] + b, up) == camel(a, up) + camel(b, true),
        'a' <= c <= 'z' ==> camel(seq![c], true) == seq![(c as u8 - 32) as u8 as char],
        'A' <= c <= 'Z' || '0' <= c <= '9' ==> camel(seq![c], true) == seq![c],
        !a.contains('-') && !a.contains('_') ==> camel(a, false) == a,
    decreases a.len(),
{
    assert(seq![c].drop_first() =~= Seq::<char>::empty());
    assert(camel(seq![c].drop_first(), false) =~= Seq::<char>::empty());
    assert(upper(c) + Seq::<char>::empty() =~= upper(c));
    let dash = a + seq!['-'] + b;
    let line = a + seq!['_'] + b;
    if a.len() == 0 {
        assert(dash.drop_first() =~= b);
        assert(line.drop_first() =~= b);
        assert(camel(a, up) + camel(b, true) =~= camel(b, true));
    } else {
        let rest = a.drop_first();
        assert(dash.drop_first() =~= rest + seq!['-'] + b);
        assert(line.drop_first() =~= rest + seq!['_'] + b);
        assert(dash[0] == a[0] && line[0] == a[0]);
        law_parts_are_capitalized(rest, b, c, true);
        law_parts_are_capitalized(rest, b, c, false);
        assert(camel(dash, up) =~= camel(a, up) + camel(b, true));
        assert(camel(line, up) =~= camel(a, up) + camel(b, true));
        if !a.contains('-') && !a.contains('_') {
            assert(a.contains(a[0]));
            assert forall|x: char| rest.contains(x) implies a.contains(x) by {
                let i = choose|i: int| 0 <= i < rest.len() && rest[i] == x;
                assert(a[i + 1] == x);
            }
            assert(camel(a, false) =~= a);
        }
    }
}

/// What is to be replaced is replaced wherever it stands, and a text without it
/// stays.
pub proof fn law_every_place_is_filled(s: Seq<char>, pat: Seq<char>, with: Seq<char>)
    requires
        pat.len() > 0,
    ensures
        replaced(pat + s, pat, with) == with + replaced(s, pat, with),
        (forall|i: int| 0 <= i < s.len() ==> !pat.is_prefix_of(#[trigger] s.skip(i))) ==> replaced(
            s,
            pat,
            with,
        ) == s,
    decreases s.len(),
{
    let t = pat + s;
    assert(pat =~= t.subrange(0, pat.len() as int));
    assert(t.skip(pat.len() as int) =~= s);
    if s.len() > 0 && (forall|i: int| 0 <= i < s.len() ==> !pat.is_prefix_of(
        #[trigger] s.skip(i),
    )) {
        let rest = s.drop_first();
        assert(s.skip(0) =~= s);
        assert forall|i: int| 0 <= i < rest.len() implies !pat.is_prefix_of(
            #[trigger] rest.skip(i),
        ) by {
            assert(rest.skip(i) =~= s.skip(i + 1));
        }
        law_every_place_is_filled(rest, pat, with);
        assert(replaced(s, pat, with) =~= s);
    }
}

/// `--path` names the directory, alone or joined by `=`, and the first argument
/// that is no option is the name; what follows is read as if it stood alone.
pub proof fn law_scaffold_options(value: Seq<char>, rest: Seq<Seq<char>>, g: Given)
    ensures
        given_from(seq!["--path"@, value] + rest, 0, g) == given_from(rest, 0, (g.0, Some(value))),
        given_from(seq!["--path="@ + value] + rest, 0, g) == given_from(
            rest,
            0,
            (g.0, Some(value)),
        ),
        g.0 is None && !"--"@.is_prefix_of(value) ==> given_from(seq![value] + rest, 0, g)
            == given_from(rest, 0, (Some(value), g.1)),
        given_from(Seq::empty(), 0, g) == Ok::<Given, Refusal>(g),
{
    reveal_strlit("--path");
    reveal_strlit("--path=");
    reveal_strlit("--");
    let a = seq!["--path"@, value];
    assert((a + rest)[0] == "--path"@ && (a + rest)[1] == value);
    lemma_given_behind(rest, 0, a, (g.0, Some(value)));
    let word = "--path="@ + value;
    let b = seq![word];
    assert((b + rest)[0] == word);
    assert("--path"@.len() == 6 && word.len() >= 7);
    assert("--path="@ =~= word.subrange(0, 7));
    assert(word.skip(7) =~= value);
    lemma_given_behind(rest, 0, b, (g.0, Some(value)));
    if g.0 is None && !"--"@.is_prefix_of(value) {
        let c = seq![value];
        assert((c + rest)[0] == value);
        lemma_given_behind(rest, 0, c, (Some(value), g.1));
        assert("--"@ =~= "--path"@.subrange(0, 2));
        if "--path="@.is_prefix_of(value) {
            let head = value.subrange(0, 7);
            assert(head == "--path="@);
            assert(value.subrange(0, 2) =~= head.subrange(0, 2));
            assert(head.subrange(0, 2) =~= "--"@);
        }
    }
}

/// Arguments that were read already do not matter.
proof fn lemma_given_behind(args: Seq<Seq<char>>, i: int, more: Seq<Seq<char>>, g: Given)
    requires
        0 <= i <= args.len(),
    ensures
        given_from(more + args, more.len() + i, g) == given_from(args, i, g),
    decreases args.len() - i,
{
    let all = more + args;
    let at = more.len() + i;
    if i < args.len() {
        assert(all[at] == args[i]);
        lemma_given_behind(
            args,
            i + 1,
            more,
            (g.0, Some(args[i].skip("--path="@.len() as int))),
        );
        lemma_given_behind(args, i + 1, more, (Some(args[i]), g.1));
        if i + 1 < args.len() {
            assert(all[at + 1] == args[i + 1]);
            lemma_given_behind(args, i + 2, more, (g.0, Some(args[i + 1])));
        }
    }
}

} // verus!
