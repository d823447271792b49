//! The command line of the control client.
use vstd::prelude::*;
use crate::text;

verus! {

/// The arguments without the first `--time`.
pub open spec fn without_flag(args: Seq<Seq<char>>) -> Seq<Seq<char>> {
    match text::first_text(args, "--time"@) {
        Some(i) => args.remove(i as int),
        None => args,
    }
}

/// What the arguments ask for: whether to measure the time, and the command, the
/// words of which are joined by spaces; no command where there are no words.
pub fn parse_args(args: &[String]) -> (r: (bool, Option<String>))
    ensures
        ({
            let all = text::texts(args@);
            let words = without_flag(all);
            &&& r.0 == all.contains("--time"@)
            &&& text::text_in(r.1) == (if words.len() == 0 {
                None
            } else {
                Some(text::joined(words, " "@))
            })
        }),
{
    let n: usize = args.len();
    let ghost all = text::texts(args@);
    assert(all.len() == n);
    proof {
        text::lemma_first_text(all, "--time"@);
    }
    let flag: Option<usize> = text::place_of_text(args, "--time");
    let mut words = text::copy_texts(args);
    if let Some(i) = flag {
        let ghost before = words@;
        words.remove(i);
        assert(text::texts(words@) == text::texts(before).remove(i as int));
    }
    assert(text::texts(words@) == without_flag(all));
    assert(text::texts(words@).len() == words@.len());
    if words.len() == 0 {
        (flag.is_some(), None)
    } else {
        (flag.is_some(), Some(text::join(&words, " ")))
    }
}

/// The usage text, with the verbs one to a line.
pub fn usage(verbs: &[String]) -> (r: String)
    ensures
        r@ == "usage: waverunner-ctl [--time] <command>\ncommands:\n  "@ + text::joined(
            text::texts(verbs@),
            "\n  "@,
        ),
{
    text::concat(
        "usage: waverunner-ctl [--time] <command>\ncommands:\n  ",
        &text::join(verbs, "\n  "),
    )
}

/// The command is made of all words but the first `--time`: those before it and those
/// behind it, in their order. Without it, of all words.
pub proof fn law_the_flag_is_taken_out(before: Seq<Seq<char>>, after: Seq<Seq<char>>)
    requires
        !before.contains("--time"@),
        before.len() + 1 + after.len() <= usize::MAX,
    ensures
        without_flag(before) == before,
        without_flag(before.push("--time"@) + after) == before + after,
{
    let flag = "--time"@;
    let all = before.push(flag) + after;
    text::lemma_first_text(before, flag);
    text::lemma_first_text(all, flag);
    assert(all[before.len() as int] == flag);
    assert(all.contains(flag));
    let i = text::first_text(all, flag)->Some_0 as int;
    if i < before.len() {
        assert(before[i] == all[i]);
        assert(before.contains(flag));
    }
    assert(all.remove(before.len() as int) == before + after);
}

} // verus!
