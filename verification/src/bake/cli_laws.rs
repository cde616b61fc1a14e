//! What one more option on a command line changes.

use crate::bake::cli::{
    bank_args_of, bank_flags, flag_of, given_from, level_args_of, level_flags, model_args_of,
    model_from, no_model, nothing_given, optional_text, parse_bank_args, parse_level_args, BankArgs,
    Flag, GivenView, LevelArgs, ModelGiven,
};
use crate::bake::obj::Numbers;
use crate::float::F32Bits;
use vstd::prelude::*;

verus! {

/// The command line with more behind it.
pub open spec fn continues(args: Seq<String>, more: Seq<String>) -> bool {
    args.len() <= more.len() && forall|i: int| 0 <= i < args.len() ==> #[trigger] more[i] == args[i]
}

proof fn lemma_flag_range(flags: Seq<Flag>, name: Seq<char>, k: int)
    requires
        0 <= k <= flags.len(),
    ensures
        k <= flag_of(flags, name, k) <= flags.len(),
    decreases flags.len() - k,
{
    if k < flags.len() && flags[k].long@ != name && flags[k].short@ != name {
        lemma_flag_range(flags, name, k + 1);
    }
}

proof fn lemma_read_on(args: Seq<String>, more: Seq<String>, k: int, flags: Seq<Flag>, g: GivenView)
    requires
        continues(args, more),
        0 <= k <= args.len(),
        forall|i: int| 0 <= i < flags.len() ==> (#[trigger] flags[i]).slot < g.slots.len(),
        given_from(args, k, flags, g) is Ok,
        !(given_from(args, k, flags, g)->Ok_0).help,
    ensures
        given_from(more, k, flags, g) == given_from(
            more,
            args.len() as int,
            flags,
            given_from(args, k, flags, g)->Ok_0,
        ),
        (given_from(args, k, flags, g)->Ok_0).slots.len() == g.slots.len(),
    decreases args.len() - k,
{
    if k < args.len() {
        let f = flag_of(flags, args[k]@, 0);
        lemma_flag_range(flags, args[k]@, 0);
        assert(more[k] == args[k]);
        assert(more[k + 1] == args[k + 1]);
        let next = GivenView {
            slots: g.slots.update(flags[f].slot as int, Some(args[k + 1]@)),
            check: g.check || flags[f].checks,
            ..g
        };
        lemma_read_on(args, more, k + 2, flags, next);
    }
}

/// One option and its value behind a command line that asks for no help.
proof fn lemma_one_more(args: Seq<String>, more: Seq<String>, flags: Seq<Flag>, f: int)
    requires
        continues(args, more),
        more.len() == args.len() + 2,
        forall|i: int| 0 <= i < flags.len() ==> (#[trigger] flags[i]).slot < 4,
        given_from(args, 0, flags, nothing_given(4)) is Ok,
        !(given_from(args, 0, flags, nothing_given(4))->Ok_0).help,
        0 <= f < flags.len(),
        flag_of(flags, more[args.len() as int]@, 0) == f,
        more[args.len() as int]@ != "--help"@,
        more[args.len() as int]@ != "-h"@,
    ensures
        ({
            let g = given_from(args, 0, flags, nothing_given(4))->Ok_0;
            &&& given_from(more, 0, flags, nothing_given(4)) matches Ok(h)
            &&& h.slots == g.slots.update(flags[f].slot as int, Some(more[args.len() as int + 1]@))
            &&& h.check == (g.check || flags[f].checks)
            &&& !h.help
            &&& g.slots.len() == 4
        }),
{
    lemma_read_on(args, more, 0, flags, nothing_given(4));
    let g = given_from(args, 0, flags, nothing_given(4))->Ok_0;
    let n = args.len() as int;
    let next = GivenView {
        slots: g.slots.update(flags[f].slot as int, Some(more[n + 1]@)),
        check: g.check || flags[f].checks,
        ..g
    };
    assert(given_from(more, n + 2, flags, next) == Ok::<GivenView, Seq<char>>(next));
    assert(given_from(more, n, flags, g) == given_from(more, n + 2, flags, next));
}

proof fn lemma_level_names()
    ensures
        flag_of(level_flags(), "--levels"@, 0) == 0,
        flag_of(level_flags(), "-l"@, 0) == 0,
        flag_of(level_flags(), "--out"@, 0) == 1,
        flag_of(level_flags(), "-o"@, 0) == 1,
        flag_of(level_flags(), "--assets"@, 0) == 2,
        flag_of(level_flags(), "--prefabs"@, 0) == 3,
        flag_of(level_flags(), "--check"@, 0) == 4,
        "--levels"@ != "--help"@ && "--levels"@ != "-h"@,
        "-l"@ != "--help"@ && "-l"@ != "-h"@,
        "--out"@ != "--help"@ && "--out"@ != "-h"@,
        "-o"@ != "--help"@ && "-o"@ != "-h"@,
        "--assets"@ != "--help"@ && "--assets"@ != "-h"@,
        "--prefabs"@ != "--help"@ && "--prefabs"@ != "-h"@,
        "--check"@ != "--help"@ && "--check"@ != "-h"@,
{
    reveal_strlit("--help");
    assert("--help"@.len() == 6);
    reveal_strlit("-h");
    assert("-h"@.len() == 2);
    reveal_strlit("--levels");
    assert("--levels"@.len() == 8);
    reveal_strlit("-l");
    assert("-l"@.len() == 2);
    reveal_strlit("--out");
    assert("--out"@.len() == 5);
    reveal_strlit("-o");
    assert("-o"@.len() == 2);
    reveal_strlit("--assets");
    assert("--assets"@.len() == 8);
    reveal_strlit("--prefabs");
    assert("--prefabs"@.len() == 9);
    reveal_strlit("--check");
    assert("--check"@.len() == 7);
    assert("-l"@[1] != "-h"@[1]);
    assert("-o"@[1] != "-h"@[1]);
    assert("-o"@[1] != "-l"@[1]);
    assert("--assets"@[2] != "--levels"@[2]);
    reveal_with_fuel(flag_of, 6);
}

/// One more option on the level tool's command line sets what it is for, and nothing
/// else: the source, the destination, the assets or the prefabs. A check sets the source
/// and takes the destination away.
pub proof fn law_level_option_sets_its_value(
    args: &[String],
    a: LevelArgs,
    more: &[String],
    r: Result<Option<LevelArgs>, String>,
)
    requires
        call_ensures(parse_level_args, (args,), Ok::<Option<LevelArgs>, String>(Some(a))),
        call_ensures(parse_level_args, (more,), r),
        continues(args@, more@),
        more@.len() == args@.len() + 2,
    ensures
        ({
            let name = more@[args@.len() as int]@;
            let value = more@[args@.len() as int + 1]@;
            let source = name == "--levels"@ || name == "-l"@;
            let dest = name == "--out"@ || name == "-o"@;
            let check = name == "--check"@;
            (source || dest || check || name == "--assets"@ || name == "--prefabs"@) ==> {
                &&& r matches Ok(Some(b))
                &&& b.levels@ == (if source || check {
                    value
                } else {
                    a.levels@
                })
                &&& optional_text(b.out) == (if check || a.out is None {
                    None
                } else if dest {
                    Some(value)
                } else {
                    optional_text(a.out)
                })
                &&& b.assets@ == (if name == "--assets"@ {
                    value
                } else {
                    a.assets@
                })
                &&& b.prefabs@ == (if name == "--prefabs"@ {
                    value
                } else {
                    a.prefabs@
                })
            }
        }),
{
    let name = more@[args@.len() as int]@;
    lemma_level_names();
    let known = name == "--levels"@ || name == "-l"@ || name == "--out"@ || name == "-o"@ || name
        == "--check"@ || name == "--assets"@ || name == "--prefabs"@;
    if known {
        let f = flag_of(level_flags(), name, 0);
        lemma_one_more(args@, more@, level_flags(), f);
        let h = given_from(more@, 0, level_flags(), nothing_given(4))->Ok_0;
        assert(level_args_of(more@) is Ok);
    }
}

proof fn lemma_bank_names()
    ensures
        flag_of(bank_flags(), "--input"@, 0) == 0,
        flag_of(bank_flags(), "-i"@, 0) == 0,
        flag_of(bank_flags(), "--output"@, 0) == 1,
        flag_of(bank_flags(), "-o"@, 0) == 1,
        flag_of(bank_flags(), "--ids"@, 0) == 2,
        flag_of(bank_flags(), "--mmutil"@, 0) == 3,
        "--input"@ != "--help"@ && "--input"@ != "-h"@,
        "-i"@ != "--help"@ && "-i"@ != "-h"@,
        "--output"@ != "--help"@ && "--output"@ != "-h"@,
        "-o"@ != "--help"@ && "-o"@ != "-h"@,
        "--ids"@ != "--help"@ && "--ids"@ != "-h"@,
        "--mmutil"@ != "--help"@ && "--mmutil"@ != "-h"@,
{
    reveal_strlit("--help");
    assert("--help"@.len() == 6);
    reveal_strlit("-h");
    assert("-h"@.len() == 2);
    reveal_strlit("--input");
    assert("--input"@.len() == 7);
    reveal_strlit("-i");
    assert("-i"@.len() == 2);
    reveal_strlit("--output");
    assert("--output"@.len() == 8);
    reveal_strlit("-o");
    assert("-o"@.len() == 2);
    reveal_strlit("--ids");
    assert("--ids"@.len() == 5);
    reveal_strlit("--mmutil");
    assert("--mmutil"@.len() == 8);
    assert("-i"@[1] != "-h"@[1]);
    assert("-o"@[1] != "-h"@[1]);
    assert("-o"@[1] != "-i"@[1]);
    assert("--mmutil"@[2] != "--output"@[2]);
    reveal_with_fuel(flag_of, 5);
}

/// One more option on the soundbank tool's command line sets what it is for, and
/// nothing else: the source, the bank, the ids or the compiler.
pub proof fn law_bank_option_sets_its_value(
    args: &[String],
    a: BankArgs,
    more: &[String],
    r: Result<Option<BankArgs>, String>,
)
    requires
        call_ensures(parse_bank_args, (args,), Ok::<Option<BankArgs>, String>(Some(a))),
        call_ensures(parse_bank_args, (more,), r),
        continues(args@, more@),
        more@.len() == args@.len() + 2,
    ensures
        ({
            let name = more@[args@.len() as int]@;
            let value = more@[args@.len() as int + 1]@;
            let source = name == "--input"@ || name == "-i"@;
            let bank = name == "--output"@ || name == "-o"@;
            (source || bank || name == "--ids"@ || name == "--mmutil"@) ==> {
                &&& r matches Ok(Some(b))
                &&& b.input@ == (if source {
                    value
                } else {
                    a.input@
                })
                &&& b.output@ == (if bank {
                    value
                } else {
                    a.output@
                })
                &&& b.ids@ == (if name == "--ids"@ {
                    value
                } else {
                    a.ids@
                })
                &&& optional_text(b.mmutil) == (if name == "--mmutil"@ {
                    Some(value)
                } else {
                    optional_text(a.mmutil)
                })
            }
        }),
{
    let name = more@[args@.len() as int]@;
    lemma_bank_names();
    let known = name == "--input"@ || name == "-i"@ || name == "--output"@ || name == "-o"@ || name
        == "--ids"@ || name == "--mmutil"@;
    if known {
        let f = flag_of(bank_flags(), name, 0);
        lemma_one_more(args@, more@, bank_flags(), f);
        let h = given_from(more@, 0, bank_flags(), nothing_given(4))->Ok_0;
        assert(bank_args_of(more@) is Ok);
    }
}

proof fn lemma_model_on(
    args: Seq<String>,
    more: Seq<String>,
    k: int,
    g: ModelGiven,
    value: Numbers,
)
    requires
        continues(args, more),
        0 <= k <= args.len(),
        model_from(args, k, g, value) is Ok,
        !(model_from(args, k, g, value)->Ok_0).help,
    ensures
        model_from(more, k, g, value) == model_from(
            more,
            args.len() as int,
            model_from(args, k, g, value)->Ok_0,
            value,
        ),
    decreases args.len() - k,
{
    if k < args.len() {
        assert(more[k] == args[k]);
        if args[k]@ == "--input"@ || args[k]@ == "-i"@ {
            assert(more[k + 1] == args[k + 1]);
            lemma_model_on(
                args,
                more,
                k + 2,
                ModelGiven { input: Some(args[k + 1]@), ..g },
                value,
            );
        } else if args[k]@ == "--output"@ || args[k]@ == "-o"@ {
            assert(more[k + 1] == args[k + 1]);
            lemma_model_on(
                args,
                more,
                k + 2,
                ModelGiven { output: Some(args[k + 1]@), ..g },
                value,
            );
        } else if args[k]@ == "--center"@ || args[k]@ == "-c"@ {
            lemma_model_on(args, more, k + 1, ModelGiven { center: true, ..g }, value);
        } else if args[k]@ == "--offset"@ {
            assert(more[k + 1] == args[k + 1]);
            assert(more[k + 2] == args[k + 2]);
            assert(more[k + 3] == args[k + 3]);
            let offset = crate::bake::cli::offset_at(args, k + 1, value)->Ok_0;
            lemma_model_on(args, more, k + 4, ModelGiven { offset, ..g }, value);
        }
    }
}

proof fn lemma_model_names()
    ensures
        "--center"@ != "--input"@ && "--center"@ != "-i"@ && "--center"@ != "--output"@
            && "--center"@ != "-o"@,
        "-c"@ != "--input"@ && "-c"@ != "-i"@ && "-c"@ != "--output"@ && "-c"@ != "-o"@,
        "--offset"@ != "--input"@ && "--offset"@ != "-i"@ && "--offset"@ != "--output"@
            && "--offset"@ != "-o"@ && "--offset"@ != "--center"@ && "--offset"@ != "-c"@,
        "--output"@ != "--input"@ && "--output"@ != "-i"@,
        "-o"@ != "--input"@ && "-o"@ != "-i"@,
{
    reveal_strlit("--input");
    assert("--input"@.len() == 7);
    reveal_strlit("-i");
    assert("-i"@.len() == 2);
    reveal_strlit("--output");
    assert("--output"@.len() == 8);
    reveal_strlit("-o");
    assert("-o"@.len() == 2);
    reveal_strlit("--center");
    assert("--center"@.len() == 8);
    reveal_strlit("-c");
    assert("-c"@.len() == 2);
    reveal_strlit("--offset");
    assert("--offset"@.len() == 8);
    assert("-c"@[1] != "-i"@[1]);
    assert("-c"@[1] != "-o"@[1]);
    assert("-o"@[1] != "-i"@[1]);
    assert("--center"@[2] != "--output"@[2]);
    assert("--offset"@[3] != "--output"@[3]);
    assert("--offset"@[2] != "--center"@[2]);
}

/// One more option on the model tool's command line sets what it is for, and nothing
/// else: the source, the destination, whether the model is centred, or the three numbers
/// that it is moved by.
pub proof fn law_model_option_sets_its_value(
    args: Seq<String>,
    a: (Seq<char>, Seq<char>, bool, Seq<F32Bits>),
    more: Seq<String>,
    value: Numbers,
)
    requires
        model_args_of(args, value) == Ok::<_, Seq<char>>(Some(a)),
        continues(args, more),
    ensures
        ({
            let n = args.len() as int;
            let name = more[n]@;
            let r = model_args_of(more, value);
            &&& more.len() == n + 2 && (name == "--input"@ || name == "-i"@) ==> r == Ok::<
                _,
                Seq<char>,
            >(Some((more[n + 1]@, a.1, a.2, a.3)))
            &&& more.len() == n + 2 && (name == "--output"@ || name == "-o"@) ==> r == Ok::<
                _,
                Seq<char>,
            >(Some((a.0, more[n + 1]@, a.2, a.3)))
            &&& more.len() == n + 1 && (name == "--center"@ || name == "-c"@) ==> r == Ok::<
                _,
                Seq<char>,
            >(Some((a.0, a.1, true, a.3)))
            &&& more.len() == n + 4 && name == "--offset"@ && value(more[n + 1]@) is Some && value(
                more[n + 2]@,
            ) is Some && value(more[n + 3]@) is Some ==> r == Ok::<_, Seq<char>>(
                Some(
                    (
                        a.0,
                        a.1,
                        a.2,
                        seq![
                            value(more[n + 1]@)->0,
                            value(more[n + 2]@)->0,
                            value(more[n + 3]@)->0,
                        ],
                    ),
                ),
            )
        }),
{
    let n = args.len() as int;
    let name = more[n]@;
    lemma_model_on(args, more, 0, no_model(), value);
    lemma_model_names();
    let g = model_from(args, 0, no_model(), value)->Ok_0;
    if more.len() == n + 2 && (name == "--input"@ || name == "-i"@) {
        let h = ModelGiven { input: Some(more[n + 1]@), ..g };
        assert(model_from(more, n + 2, h, value) == Ok::<ModelGiven, Seq<char>>(h));
        assert(model_from(more, n, g, value) == model_from(more, n + 2, h, value));
    } else if more.len() == n + 2 && (name == "--output"@ || name == "-o"@) {
        let h = ModelGiven { output: Some(more[n + 1]@), ..g };
        assert(model_from(more, n + 2, h, value) == Ok::<ModelGiven, Seq<char>>(h));
        assert(model_from(more, n, g, value) == model_from(more, n + 2, h, value));
    } else if more.len() == n + 1 && (name == "--center"@ || name == "-c"@) {
        let h = ModelGiven { center: true, ..g };
        assert(model_from(more, n + 1, h, value) == Ok::<ModelGiven, Seq<char>>(h));
        assert(model_from(more, n, g, value) == model_from(more, n + 1, h, value));
    } else if more.len() == n + 4 && name == "--offset"@ && value(more[n + 1]@) is Some && value(
        more[n + 2]@,
    ) is Some && value(more[n + 3]@) is Some {
        let offset = seq![
            value(more[n + 1]@)->0,
            value(more[n + 2]@)->0,
            value(more[n + 3]@)->0,
        ];
        let h = ModelGiven { offset, ..g };
        assert(crate::bake::cli::offset_at(more, n + 1, value) == Ok::<_, Seq<char>>(offset));
        assert(model_from(more, n + 4, h, value) == Ok::<ModelGiven, Seq<char>>(h));
        assert(model_from(more, n, g, value) == model_from(more, n + 4, h, value));
    }
}

} // verus!
