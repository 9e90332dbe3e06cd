//! The command line: the deploy folder is the one required argument.
use vstd::prelude::*;

use crate::csv::same_chars;
use crate::text::chars_of;

verus! {

/// Where `flag` first occurs among `args`.
pub open spec fn first_position(args: Seq<Seq<char>>, flag: Seq<char>) -> Option<nat>
    decreases args.len(),
{
    if args.len() == 0 {
        None
    } else if args[0] == flag {
        Some(0)
    } else {
        crate::text::shift_index(first_position(args.drop_first(), flag), 1)
    }
}

/// The deploy folder the arguments name: the argument after the first
/// `--deploy`, else after the first `-d`; `None` when neither flag occurs
/// or nothing follows the one found.
pub open spec fn spec_deploy_arg(args: Seq<Seq<char>>) -> Option<Seq<char>> {
    let pos = match first_position(args, "--deploy"@) {
        Some(p) => Some(p),
        None => first_position(args, "-d"@),
    };
    match pos {
        Some(p) => if p + 1 < args.len() {
            Some(args[(p + 1) as int])
        } else {
            None
        },
        None => None,
    }
}

/// Where `flag` first occurs among `args`.
fn position_of(args: &Vec<String>, flag: &str) -> (r: Option<usize>)
    ensures
        match first_position(args@.map_values(|a: String| a@), flag@) {
            Some(p) => r == Some(p as usize) && p < args@.len(),
            None => r is None,
        },
{
    let ghost av = args@.map_values(|a: String| a@);
    let f = chars_of(flag);
    let mut i: usize = 0;
    assert(av.subrange(0, av.len() as int) =~= av);
    while i < args.len()
        invariant
            i <= args@.len(),
            av == args@.map_values(|a: String| a@),
            f@ == flag@,
            first_position(av, flag@) == crate::text::shift_index(
                first_position(av.subrange(i as int, av.len() as int), flag@),
                i as nat,
            ),
        decreases args.len() - i,
    {
        let ghost rest = av.subrange(i as int, av.len() as int);
        assert(rest[0] == args@[i as int]@);
        if same_chars(&chars_of(args[i].as_str()), &f) {
            return Some(i);
        }
        assert(rest.drop_first() =~= av.subrange(i + 1, av.len() as int));
        i = i + 1;
    }
    assert(av.subrange(i as int, av.len() as int) =~= Seq::<Seq<char>>::empty());
    None
}

/// The deploy folder named on the command line (see [`spec_deploy_arg`]).
pub fn deploy_arg(args: &Vec<String>) -> (r: Option<String>)
    ensures
        match spec_deploy_arg(args@.map_values(|a: String| a@)) {
            Some(d) => r matches Some(s) && s@ == d,
            None => r is None,
        },
{
    let pos = match position_of(args, "--deploy") {
        Some(p) => p,
        None => match position_of(args, "-d") {
            Some(p) => p,
            None => {
                return None;
            },
        },
    };
    if pos >= args.len() - 1 {
        return None;
    }
    Some(crate::text::string_from_chars(&chars_of(args[pos + 1].as_str())))
}


/// `flag` first occurs at `i`: there, and nowhere before.
pub open spec fn first_at(args: Seq<Seq<char>>, flag: Seq<char>, i: int) -> bool {
    &&& 0 <= i < args.len()
    &&& args[i] == flag
    &&& forall|j: int| 0 <= j < i ==> #[trigger] args[j] != flag
}

/// Where `flag` first occurs is its first place, counting from 0.
proof fn lemma_first_position_at(args: Seq<Seq<char>>, flag: Seq<char>, i: int)
    requires
        first_at(args, flag, i),
    ensures
        first_position(args, flag) == Some(i as nat),
    decreases i,
{
    if i > 0 {
        assert(args[0] != flag);
        assert forall|j: int| 0 <= j < i - 1 implies #[trigger] args.drop_first()[j] != flag by {
            assert(args.drop_first()[j] == args[j + 1]);
        }
        lemma_first_position_at(args.drop_first(), flag, i - 1);
    }
}

/// A flag that never occurs has no position.
proof fn lemma_first_position_none(args: Seq<Seq<char>>, flag: Seq<char>)
    requires
        forall|j: int| 0 <= j < args.len() ==> #[trigger] args[j] != flag,
    ensures
        first_position(args, flag) is None,
    decreases args.len(),
{
    if args.len() > 0 {
        assert(args[0] != flag);
        assert forall|j: int| 0 <= j < args.len() - 1 implies #[trigger] args.drop_first()[j] != flag by {
            assert(args.drop_first()[j] == args[j + 1]);
        }
        lemma_first_position_none(args.drop_first(), flag);
    }
}

/// Law: the deploy folder is the argument right after the first
/// `--deploy`; where no `--deploy` is given, the one right after the first
/// `-d`; none where the flag found is the last argument or neither flag is
/// given (`website -d deploy/dev` names `deploy/dev`).
pub proof fn law_deploy_arg(args: Seq<Seq<char>>)
    ensures
        forall|i: int|
            #[trigger] first_at(args, "--deploy"@, i) ==> spec_deploy_arg(args) == if i + 1 < args.len() {
                Some(args[i + 1])
            } else {
                None
            },
        (forall|j: int| 0 <= j < args.len() ==> #[trigger] args[j] != "--deploy"@) ==> forall|i: int|
            #[trigger] first_at(args, "-d"@, i) ==> spec_deploy_arg(args) == if i + 1 < args.len() {
                Some(args[i + 1])
            } else {
                None
            },
        (forall|j: int| 0 <= j < args.len() ==> #[trigger] args[j] != "--deploy"@ && args[j] != "-d"@)
            ==> spec_deploy_arg(args) is None,
{
    assert forall|i: int| #[trigger] first_at(args, "--deploy"@, i) implies spec_deploy_arg(args) == if i + 1
        < args.len() {
        Some(args[i + 1])
    } else {
        None
    } by {
        lemma_first_position_at(args, "--deploy"@, i);
    }
    if forall|j: int| 0 <= j < args.len() ==> #[trigger] args[j] != "--deploy"@ {
        lemma_first_position_none(args, "--deploy"@);
        assert forall|i: int| #[trigger] first_at(args, "-d"@, i) implies spec_deploy_arg(args) == if i + 1
            < args.len() {
            Some(args[i + 1])
        } else {
            None
        } by {
            lemma_first_position_at(args, "-d"@, i);
        }
        if forall|j: int| 0 <= j < args.len() ==> #[trigger] args[j] != "--deploy"@ && args[j] != "-d"@ {
            lemma_first_position_none(args, "-d"@);
        }
    }
}

} // verus!
