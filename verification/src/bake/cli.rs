//! Command lines of the baking tools.

use crate::bake::obj::{reads, Numbers, Options};
use crate::float::F32Bits;
use crate::strings::{push_text, same_text, text};
use vstd::prelude::*;

verus! {

/// An option that takes one value.
#[derive(Clone, Copy)]
pub struct Flag {
    pub long: &'static str,
    /// The short form; the long one again where there is none.
    pub short: &'static str,
    /// What is reported where the value is missing.
    pub missing: &'static str,
    /// The slot that the value goes to.
    pub slot: usize,
    /// Does the option ask for a check only?
    pub checks: bool,
}

/// What has been read of a command line.
pub struct Given {
    /// The last value given for each slot.
    pub slots: Vec<Option<String>>,
    /// Was a check asked for?
    pub check: bool,
    /// Was help asked for? Then nothing behind it was read.
    pub help: bool,
}

/// What a command line says.
#[verifier::ext_equal]
pub struct GivenView {
    pub slots: Seq<Option<Seq<char>>>,
    pub check: bool,
    pub help: bool,
}

impl View for Given {
    type V = GivenView;

    open spec fn view(&self) -> GivenView {
        GivenView {
            slots: Seq::new(
                self.slots@.len(),
                |i: int|
                    match self.slots@[i] {
                        Some(t) => Some(t@),
                        None => None,
                    },
            ),
            check: self.check,
            help: self.help,
        }
    }
}

/// The first option with this name, from the `k`-th on; their number if there is none.
pub open spec fn flag_of(flags: Seq<Flag>, name: Seq<char>, k: int) -> int
    decreases flags.len() - k,
{
    if k >= flags.len() {
        flags.len() as int
    } else if flags[k].long@ == name || flags[k].short@ == name {
        k
    } else {
        flag_of(flags, name, k + 1)
    }
}

/// The command line from argument `k` on, on top of `g`.
pub open spec fn given_from(
    args: Seq<String>,
    k: int,
    flags: Seq<Flag>,
    g: GivenView,
) -> Result<GivenView, Seq<char>>
    decreases args.len() - k,
{
    if k >= args.len() {
        Ok(g)
    } else if args[k]@ == "--help"@ || args[k]@ == "-h"@ {
        Ok(GivenView { help: true, ..g })
    } else {
        let f = flag_of(flags, args[k]@, 0);
        if f >= flags.len() {
            Err("unknown argument `"@ + args[k]@ + "` (try --help)"@)
        } else if k + 1 >= args.len() {
            Err(flags[f].missing@)
        } else {
            given_from(
                args,
                k + 2,
                flags,
                GivenView {
                    slots: g.slots.update(flags[f].slot as int, Some(args[k + 1]@)),
                    check: g.check || flags[f].checks,
                    ..g
                },
            )
        }
    }
}

/// Nothing given, for so many slots.
pub open spec fn nothing_given(slots: nat) -> GivenView {
    GivenView { slots: Seq::new(slots, |i: int| None), check: false, help: false }
}

fn unknown(arg: &str) -> (r: String)
    ensures
        r@ == "unknown argument `"@ + arg@ + "` (try --help)"@,
{
    let mut out: String = text("unknown argument `");
    push_text(&mut out, arg);
    push_text(&mut out, "` (try --help)");
    out
}

fn find_flag(flags: &[Flag], name: &str) -> (r: usize)
    ensures
        r == flag_of(flags@, name@, 0),
        r <= flags.len(),
{
    let mut k: usize = 0;
    while k < flags.len()
        invariant
            k <= flags.len(),
            flag_of(flags@, name@, 0) == flag_of(flags@, name@, k as int),
        decreases flags.len() - k,
    {
        if same_text(flags[k].long, name) || same_text(flags[k].short, name) {
            return k;
        }
        k = k + 1;
    }
    k
}

/// Read a command line, the program's own name left out: a later value overrides an
/// earlier one, and help ends it.
pub fn read_flags(args: &[String], flags: &[Flag], slots: usize) -> (r: Result<Given, String>)
    requires
        forall|i: int| 0 <= i < flags@.len() ==> (#[trigger] flags@[i]).slot < slots,
    ensures
        match r {
            Ok(g) => given_from(args@, 0, flags@, nothing_given(slots as nat)) == Ok::<
                GivenView,
                Seq<char>,
            >(g@),
            Err(e) => given_from(args@, 0, flags@, nothing_given(slots as nat)) == Err::<
                GivenView,
                Seq<char>,
            >(e@),
        },
        r matches Ok(g) ==> g.slots@.len() == slots,
{
    let mut none: Vec<Option<String>> = Vec::new();
    while none.len() < slots
        invariant
            none.len() <= slots,
            forall|i: int| 0 <= i < none.len() ==> #[trigger] none@[i] is None,
        decreases slots - none.len(),
    {
        none.push(None);
    }
    let mut g = Given { slots: none, check: false, help: false };
    assert(g@ =~= nothing_given(slots as nat));
    let mut k: usize = 0;
    while k < args.len()
        invariant
            k <= args.len(),
            g.slots@.len() == slots,
            !g.help,
            forall|i: int| 0 <= i < flags@.len() ==> (#[trigger] flags@[i]).slot < slots,
            given_from(args@, 0, flags@, nothing_given(slots as nat)) == given_from(
                args@,
                k as int,
                flags@,
                g@,
            ),
        decreases args.len() - k,
    {
        let ghost before = g@;
        let arg: &str = args[k].as_str();
        if same_text(arg, "--help") || same_text(arg, "-h") {
            g.help = true;
            assert(g@ =~= (GivenView { help: true, ..before }));
            return Ok(g);
        }
        let f: usize = find_flag(flags, arg);
        if f == flags.len() {
            return Err(unknown(arg));
        }
        let flag: Flag = flags[f];
        assert(flags@[f as int].slot < slots);
        if k == args.len() - 1 {
            return Err(text(flag.missing));
        }
        let value: String = text(args[k + 1].as_str());
        let slot: usize = flag.slot;
        g.slots.set(slot, Some(value));
        g.check = g.check || flag.checks;
        assert(g@ =~= (GivenView {
            slots: before.slots.update(slot as int, Some(args@[k + 1]@)),
            check: before.check || flag.checks,
            ..before
        }));
        k = k + 2;
    }
    Ok(g)
}

fn slot_value(g: &Given, i: usize) -> (r: Option<String>)
    requires
        i < g.slots@.len(),
    ensures
        match r {
            Some(t) => g@.slots[i as int] == Some(t@),
            None => g@.slots[i as int] is None,
        },
{
    match &g.slots[i] {
        Some(t) => Some(text(t.as_str())),
        None => None,
    }
}

/// What the soundbank tool is asked for.
#[derive(Debug, Clone)]
pub struct BankArgs {
    pub input: String,
    pub output: String,
    pub ids: String,
    /// The soundbank compiler, if it is not to be looked for.
    pub mmutil: Option<String>,
}

/// The options of the soundbank tool.
pub open spec fn bank_flags() -> Seq<Flag> {
    seq![
        Flag {
            long: "--input",
            short: "-i",
            missing: "--input needs a path",
            slot: 0,
            checks: false,
        },
        Flag {
            long: "--output",
            short: "-o",
            missing: "--output needs a path",
            slot: 1,
            checks: false,
        },
        Flag { long: "--ids", short: "--ids", missing: "--ids needs a path", slot: 2, checks: false },
        Flag {
            long: "--mmutil",
            short: "--mmutil",
            missing: "--mmutil needs a path",
            slot: 3,
            checks: false,
        },
    ]
}

/// What a command line of the soundbank tool comes to: help, a bake, or an error.
pub open spec fn bank_args_of(args: Seq<String>) -> Result<
    Option<(Seq<char>, Seq<char>, Seq<char>, Option<Seq<char>>)>,
    Seq<char>,
> {
    match given_from(args, 0, bank_flags(), nothing_given(4)) {
        Err(e) => Err(e),
        Ok(g) => if g.help {
            Ok(None)
        } else if g.slots[0] is None {
            Err("missing --input <audio dir>"@)
        } else if g.slots[1] is None {
            Err("missing --output <soundbank.bin>"@)
        } else if g.slots[2] is None {
            Err("missing --ids <sounds.rs>"@)
        } else {
            Ok(Some((g.slots[0]->0, g.slots[1]->0, g.slots[2]->0, g.slots[3])))
        },
    }
}

/// The optional text, as characters.
pub open spec fn optional_text(t: Option<String>) -> Option<Seq<char>> {
    match t {
        Some(s) => Some(s@),
        None => None,
    }
}

/// Read the soundbank tool's command line; nothing where help was asked for.
pub fn parse_bank_args(args: &[String]) -> (r: Result<Option<BankArgs>, String>)
    ensures
        match r {
            Ok(None) => bank_args_of(args@) == Ok::<
                Option<(Seq<char>, Seq<char>, Seq<char>, Option<Seq<char>>)>,
                Seq<char>,
            >(None),
            Ok(Some(a)) => bank_args_of(args@) == Ok::<
                Option<(Seq<char>, Seq<char>, Seq<char>, Option<Seq<char>>)>,
                Seq<char>,
            >(Some((a.input@, a.output@, a.ids@, optional_text(a.mmutil)))),
            Err(e) => bank_args_of(args@) == Err::<
                Option<(Seq<char>, Seq<char>, Seq<char>, Option<Seq<char>>)>,
                Seq<char>,
            >(e@),
        },
{
    let flags: [Flag; 4] = [
        Flag {
            long: "--input",
            short: "-i",
            missing: "--input needs a path",
            slot: 0,
            checks: false,
        },
        Flag {
            long: "--output",
            short: "-o",
            missing: "--output needs a path",
            slot: 1,
            checks: false,
        },
        Flag { long: "--ids", short: "--ids", missing: "--ids needs a path", slot: 2, checks: false },
        Flag {
            long: "--mmutil",
            short: "--mmutil",
            missing: "--mmutil needs a path",
            slot: 3,
            checks: false,
        },
    ];
    assert(flags@ =~= bank_flags());
    let g: Given = match read_flags(args, flags.as_slice(), 4) {
        Ok(g) => g,
        Err(e) => {
            return Err(e);
        },
    };
    if g.help {
        return Ok(None);
    }
    let input: String = match slot_value(&g, 0) {
        Some(v) => v,
        None => {
            return Err(text("missing --input <audio dir>"));
        },
    };
    let output: String = match slot_value(&g, 1) {
        Some(v) => v,
        None => {
            return Err(text("missing --output <soundbank.bin>"));
        },
    };
    let ids: String = match slot_value(&g, 2) {
        Some(v) => v,
        None => {
            return Err(text("missing --ids <sounds.rs>"));
        },
    };
    let mmutil: Option<String> = slot_value(&g, 3);
    Ok(Some(BankArgs { input, output, ids, mmutil }))
}

/// What the level tool is asked for.
#[derive(Debug, Clone)]
pub struct LevelArgs {
    pub levels: String,
    /// Where the levels are baked to; nothing where they are only checked.
    pub out: Option<String>,
    pub assets: String,
    pub prefabs: String,
}

/// The options of the level tool.
pub open spec fn level_flags() -> Seq<Flag> {
    seq![
        Flag {
            long: "--levels",
            short: "-l",
            missing: "--levels needs a path",
            slot: 0,
            checks: false,
        },
        Flag { long: "--out", short: "-o", missing: "--out needs a path", slot: 1, checks: false },
        Flag {
            long: "--assets",
            short: "--assets",
            missing: "--assets needs a path",
            slot: 2,
            checks: false,
        },
        Flag {
            long: "--prefabs",
            short: "--prefabs",
            missing: "--prefabs needs a path",
            slot: 3,
            checks: false,
        },
        Flag {
            long: "--check",
            short: "--check",
            missing: "--check needs a path",
            slot: 0,
            checks: true,
        },
    ]
}

/// The value, or the text that stands for it.
pub open spec fn value_or(v: Option<Seq<char>>, default: Seq<char>) -> Seq<char> {
    match v {
        Some(t) => t,
        None => default,
    }
}

/// What a command line of the level tool comes to: help, a bake or a check, or an
/// error.
pub open spec fn level_args_of(args: Seq<String>) -> Result<
    Option<(Seq<char>, Option<Seq<char>>, Seq<char>, Seq<char>)>,
    Seq<char>,
> {
    match given_from(args, 0, level_flags(), nothing_given(4)) {
        Err(e) => Err(e),
        Ok(g) => if g.help {
            Ok(None)
        } else if g.slots[0] is None {
            Err("missing --levels <dir> (or --check <dir>)"@)
        } else if !g.check && g.slots[1] is None {
            Err("missing --out <dir>"@)
        } else {
            Ok(
                Some(
                    (
                        g.slots[0]->0,
                        if g.check {
                            None
                        } else {
                            g.slots[1]
                        },
                        value_or(g.slots[2], "assets"@),
                        value_or(g.slots[3], "assets/prefabs"@),
                    ),
                ),
            )
        },
    }
}

/// Read the level tool's command line; nothing where help was asked for.
pub fn parse_level_args(args: &[String]) -> (r: Result<Option<LevelArgs>, String>)
    ensures
        match r {
            Ok(None) => level_args_of(args@) == Ok::<
                Option<(Seq<char>, Option<Seq<char>>, Seq<char>, Seq<char>)>,
                Seq<char>,
            >(None),
            Ok(Some(a)) => level_args_of(args@) == Ok::<
                Option<(Seq<char>, Option<Seq<char>>, Seq<char>, Seq<char>)>,
                Seq<char>,
            >(Some((a.levels@, optional_text(a.out), a.assets@, a.prefabs@))),
            Err(e) => level_args_of(args@) == Err::<
                Option<(Seq<char>, Option<Seq<char>>, Seq<char>, Seq<char>)>,
                Seq<char>,
            >(e@),
        },
{
    let flags: [Flag; 5] = [
        Flag {
            long: "--levels",
            short: "-l",
            missing: "--levels needs a path",
            slot: 0,
            checks: false,
        },
        Flag { long: "--out", short: "-o", missing: "--out needs a path", slot: 1, checks: false },
        Flag {
            long: "--assets",
            short: "--assets",
            missing: "--assets needs a path",
            slot: 2,
            checks: false,
        },
        Flag {
            long: "--prefabs",
            short: "--prefabs",
            missing: "--prefabs needs a path",
            slot: 3,
            checks: false,
        },
        Flag {
            long: "--check",
            short: "--check",
            missing: "--check needs a path",
            slot: 0,
            checks: true,
        },
    ];
    assert(flags@ =~= level_flags());
    let g: Given = match read_flags(args, flags.as_slice(), 4) {
        Ok(g) => g,
        Err(e) => {
            return Err(e);
        },
    };
    if g.help {
        return Ok(None);
    }
    let levels: String = match slot_value(&g, 0) {
        Some(v) => v,
        None => {
            return Err(text("missing --levels <dir> (or --check <dir>)"));
        },
    };
    let given_out: Option<String> = slot_value(&g, 1);
    let out: Option<String> = if g.check {
        None
    } else {
        if given_out.is_none() {
            return Err(text("missing --out <dir>"));
        }
        given_out
    };
    let assets: String = match slot_value(&g, 2) {
        Some(v) => v,
        None => text("assets"),
    };
    let prefabs: String = match slot_value(&g, 3) {
        Some(v) => v,
        None => text("assets/prefabs"),
    };
    Ok(Some(LevelArgs { levels, out, assets, prefabs }))
}

/// What the model tool is asked for.
#[derive(Debug, Clone)]
pub struct ModelArgs {
    pub input: String,
    pub output: String,
    pub opts: Options,
}

/// What has been read of the model tool's command line.
#[verifier::ext_equal]
pub struct ModelGiven {
    pub input: Option<Seq<char>>,
    pub output: Option<Seq<char>>,
    pub center: bool,
    pub offset: Seq<F32Bits>,
    pub help: bool,
}

/// A coordinate of the offset, or what is wrong with it.
pub open spec fn coordinate(args: Seq<String>, k: int, what: Seq<char>, value: Numbers) -> Result<
    F32Bits,
    Seq<char>,
> {
    if k >= args.len() {
        Err("--offset needs three numbers ("@ + what + " missing)"@)
    } else {
        match value(args[k]@) {
            Some(v) => Ok(v),
            None => Err(what + " is not a number"@),
        }
    }
}

/// The three numbers behind the offset option, or what is wrong with the first bad one.
pub open spec fn offset_at(args: Seq<String>, k: int, value: Numbers) -> Result<
    Seq<F32Bits>,
    Seq<char>,
> {
    match coordinate(args, k, "offset x"@, value) {
        Err(e) => Err(e),
        Ok(x) => match coordinate(args, k + 1, "offset y"@, value) {
            Err(e) => Err(e),
            Ok(y) => match coordinate(args, k + 2, "offset z"@, value) {
                Err(e) => Err(e),
                Ok(z) => Ok(seq![x, y, z]),
            },
        },
    }
}

/// The command line from argument `k` on, on top of `g`.
pub open spec fn model_from(args: Seq<String>, k: int, g: ModelGiven, value: Numbers) -> Result<
    ModelGiven,
    Seq<char>,
>
    decreases args.len() - k,
{
    if k >= args.len() {
        Ok(g)
    } else if args[k]@ == "--input"@ || args[k]@ == "-i"@ {
        if k + 1 >= args.len() {
            Err("--input needs a path"@)
        } else {
            model_from(args, k + 2, ModelGiven { input: Some(args[k + 1]@), ..g }, value)
        }
    } else if args[k]@ == "--output"@ || args[k]@ == "-o"@ {
        if k + 1 >= args.len() {
            Err("--output needs a path"@)
        } else {
            model_from(args, k + 2, ModelGiven { output: Some(args[k + 1]@), ..g }, value)
        }
    } else if args[k]@ == "--center"@ || args[k]@ == "-c"@ {
        model_from(args, k + 1, ModelGiven { center: true, ..g }, value)
    } else if args[k]@ == "--offset"@ {
        match offset_at(args, k + 1, value) {
            Err(e) => Err(e),
            Ok(offset) => model_from(args, k + 4, ModelGiven { offset, ..g }, value),
        }
    } else if args[k]@ == "--help"@ || args[k]@ == "-h"@ {
        Ok(ModelGiven { help: true, ..g })
    } else {
        Err("unknown argument `"@ + args[k]@ + "` (try --help)"@)
    }
}

/// Nothing given.
pub open spec fn no_model() -> ModelGiven {
    ModelGiven {
        input: None,
        output: None,
        center: false,
        offset: seq![F32Bits(0), F32Bits(0), F32Bits(0)],
        help: false,
    }
}

/// What a command line of the model tool comes to: help, a bake of one model with
/// its centring and offset, or an error.
pub open spec fn model_args_of(args: Seq<String>, value: Numbers) -> Result<
    Option<(Seq<char>, Seq<char>, bool, Seq<F32Bits>)>,
    Seq<char>,
> {
    match model_from(args, 0, no_model(), value) {
        Err(e) => Err(e),
        Ok(g) => if g.help {
            Ok(None)
        } else if g.input is None {
            Err("missing --input <file.obj>"@)
        } else if g.output is None {
            Err("missing --output <file.dl>"@)
        } else {
            Ok(Some((g.input->0, g.output->0, g.center, g.offset)))
        },
    }
}

fn read_coordinate<F: Fn(&str) -> Option<F32Bits>>(
    args: &[String],
    k: usize,
    what: &str,
    number: &F,
) -> (r: Result<F32Bits, String>)
    requires
        forall|s: &str| #[trigger] call_requires(*number, (s,)),
    ensures
        forall|value: Numbers| #[trigger]
            reads(*number, value) ==> match r {
                Ok(v) => coordinate(args@, k as int, what@, value) == Ok::<F32Bits, Seq<char>>(v),
                Err(e) => coordinate(args@, k as int, what@, value) == Err::<F32Bits, Seq<char>>(
                    e@,
                ),
            },
        r is Ok ==> k < args.len(),
{
    if k >= args.len() {
        let mut e: String = text("--offset needs three numbers (");
        push_text(&mut e, what);
        push_text(&mut e, " missing)");
        return Err(e);
    }
    match number(args[k].as_str()) {
        Some(v) => Ok(v),
        None => {
            let mut e: String = text(what);
            push_text(&mut e, " is not a number");
            Err(e)
        },
    }
}

/// Read the model tool's command line; nothing where help was asked for. The closure
/// reads the offset's numbers.
pub fn parse_model_args<F: Fn(&str) -> Option<F32Bits>>(args: &[String], number: F) -> (r: Result<
    Option<ModelArgs>,
    String,
>)
    requires
        forall|s: &str| #[trigger] call_requires(number, (s,)),
    ensures
        forall|value: Numbers| #[trigger]
            reads(number, value) ==> match r {
                Ok(None) => model_args_of(args@, value) == Ok::<
                    Option<(Seq<char>, Seq<char>, bool, Seq<F32Bits>)>,
                    Seq<char>,
                >(None),
                Ok(Some(a)) => model_args_of(args@, value) == Ok::<
                    Option<(Seq<char>, Seq<char>, bool, Seq<F32Bits>)>,
                    Seq<char>,
                >(Some((a.input@, a.output@, a.opts.center, a.opts.offset@))),
                Err(e) => model_args_of(args@, value) == Err::<
                    Option<(Seq<char>, Seq<char>, bool, Seq<F32Bits>)>,
                    Seq<char>,
                >(e@),
            },
        r matches Ok(Some(a)) ==> !a.opts.compress,
{
    let mut input: Option<String> = None;
    let mut output: Option<String> = None;
    let mut opts: Options = Options::default();
    let mut k: usize = 0;
    let ghost mut g = no_model();
    assert(opts.offset@ =~= no_model().offset);
    while k < args.len()
        invariant
            k <= args.len(),
            !opts.compress,
            g == (ModelGiven {
                input: optional_text(input),
                output: optional_text(output),
                center: opts.center,
                offset: opts.offset@,
                help: false,
            }),
            forall|s: &str| #[trigger] call_requires(number, (s,)),
            forall|value: Numbers| #[trigger]
                reads(number, value) ==> model_from(args@, 0, no_model(), value) == model_from(
                    args@,
                    k as int,
                    g,
                    value,
                ),
        decreases args.len() - k,
    {
        let arg: &str = args[k].as_str();
        if same_text(arg, "--input") || same_text(arg, "-i") {
            if k == args.len() - 1 {
                return Err(text("--input needs a path"));
            }
            input = Some(text(args[k + 1].as_str()));
            proof {
                g = ModelGiven { input: Some(args@[k + 1]@), ..g };
            }
            k = k + 2;
        } else if same_text(arg, "--output") || same_text(arg, "-o") {
            if k == args.len() - 1 {
                return Err(text("--output needs a path"));
            }
            output = Some(text(args[k + 1].as_str()));
            proof {
                g = ModelGiven { output: Some(args@[k + 1]@), ..g };
            }
            k = k + 2;
        } else if same_text(arg, "--center") || same_text(arg, "-c") {
            opts.center = true;
            proof {
                g = ModelGiven { center: true, ..g };
            }
            k = k + 1;
        } else if same_text(arg, "--offset") {
            let x: F32Bits = match read_coordinate(args, k + 1, "offset x", &number) {
                Ok(v) => v,
                Err(e) => {
                    return Err(e);
                },
            };
            let y: F32Bits = match read_coordinate(args, k + 2, "offset y", &number) {
                Ok(v) => v,
                Err(e) => {
                    return Err(e);
                },
            };
            let z: F32Bits = match read_coordinate(args, k + 3, "offset z", &number) {
                Ok(v) => v,
                Err(e) => {
                    return Err(e);
                },
            };
            opts.offset = [x, y, z];
            assert(opts.offset@ =~= seq![x, y, z]);
            proof {
                g = ModelGiven { offset: seq![x, y, z], ..g };
            }
            k = k + 4;
        } else if same_text(arg, "--help") || same_text(arg, "-h") {
            return Ok(None);
        } else {
            return Err(unknown(arg));
        }
    }
    match (input, output) {
        (None, _) => Err(text("missing --input <file.obj>")),
        (Some(_), None) => Err(text("missing --output <file.dl>")),
        (Some(input), Some(output)) => Ok(Some(ModelArgs { input, output, opts })),
    }
}

} // verus!
