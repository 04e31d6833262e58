//! The arguments a server process accepts before it serves, and the root
//! remembered from them.

use vstd::prelude::*;

use crate::index::opt_view;
use crate::text::{chars_of, concat, has_prefix, has_prefix_exec, str_eq, string_of_range};

verus! {

/// The parsed launch arguments: whether to print a diagnosis, and the
/// repository root given with `--root`.
#[derive(Debug, Clone, PartialEq, Eq)]
pub struct LaunchArgs {
    pub doctor: bool,
    pub root: Option<String>,
}

/// The mathematical value of [`LaunchArgs`].
pub struct LaunchArgsView {
    pub doctor: bool,
    pub root: Option<Seq<char>>,
}

impl View for LaunchArgs {
    type V = LaunchArgsView;

    open spec fn view(&self) -> LaunchArgsView {
        LaunchArgsView { doctor: self.doctor, root: opt_view(self.root) }
    }
}

/// The views of the raw arguments.
pub open spec fn arg_views(args: Seq<&str>) -> Seq<Seq<char>> {
    args.map_values(|a: &str| a@)
}

/// The message for `--root` without a usable path.
pub open spec fn missing_root_message() -> Seq<char> {
    "--root requires a path"@
}

/// A path given after a separate `--root`: not empty and not an option.
pub open spec fn usable_root_value(v: Seq<char>) -> bool {
    v.len() > 0 && v[0] != '-'
}

/// Parsing of the remaining arguments `args`, given what was parsed so far.
/// `doctor` sets the flag; `--root=PATH` and `--root PATH` set the root (the
/// last one wins); anything else is an unknown argument.
pub open spec fn launch_args_from(args: Seq<Seq<char>>, doctor: bool, root: Option<Seq<char>>) -> Result<
    LaunchArgsView,
    Seq<char>,
>
    decreases args.len(),
{
    if args.len() == 0 {
        Ok(LaunchArgsView { doctor, root })
    } else {
        let arg = args[0];
        if arg == "doctor"@ {
            launch_args_from(args.drop_first(), true, root)
        } else if has_prefix(arg, "--root="@) {
            let value = arg.subrange(7, arg.len() as int);
            if value.len() == 0 {
                Err(missing_root_message())
            } else {
                launch_args_from(args.drop_first(), doctor, Some(value))
            }
        } else if arg == "--root"@ {
            if args.len() < 2 || !usable_root_value(args[1]) {
                Err(missing_root_message())
            } else {
                launch_args_from(args.subrange(2, args.len() as int), doctor, Some(args[1]))
            }
        } else {
            Err("unknown argument: "@ + arg)
        }
    }
}

/// The parse of a whole argument list.
pub open spec fn launch_args_spec(args: Seq<Seq<char>>) -> Result<LaunchArgsView, Seq<char>> {
    launch_args_from(args, false, None)
}

/// Parses the launch arguments (without the program name).
pub fn parse_launch_args(args: &[&str]) -> (res: Result<LaunchArgs, String>)
    ensures
        match (res, launch_args_spec(arg_views(args@))) {
            (Ok(parsed), Ok(expected)) => parsed@ == expected,
            (Err(message), Err(expected)) => message@ == expected,
            _ => false,
        },
{
    let ghost all = arg_views(args@);
    let mut doctor = false;
    let mut root: Option<String> = None;
    let mut i: usize = 0;
    let prefix = chars_of("--root=");
    proof {
        reveal_strlit("--root=");
        assert(all.skip(0) =~= all);
    }
    while i < args.len()
        invariant
            i <= args@.len(),
            all == arg_views(args@),
            all.len() == args@.len(),
            prefix@ == "--root="@,
            prefix@.len() == 7,
            launch_args_spec(all) == launch_args_from(all.skip(i as int), doctor, opt_view(root)),
        decreases args@.len() - i,
    {
        let ghost rest = all.skip(i as int);
        assert(rest[0] == all[i as int]);
        assert(rest.drop_first() =~= all.skip(i + 1));
        let arg: &str = args[i];
        assert(arg@ == all[i as int]);
        if str_eq(arg, "doctor") {
            doctor = true;
            i += 1;
            continue;
        }
        let chars = chars_of(arg);
        if has_prefix_exec(&chars, &prefix) {
            let value = string_of_range(&chars, 7, chars.len());
            if chars.len() == 7 {
                return Err("--root requires a path".to_owned());
            }
            root = Some(value);
            i += 1;
            continue;
        }
        if str_eq(arg, "--root") {
            if i + 1 >= args.len() {
                return Err("--root requires a path".to_owned());
            }
            let next: &str = args[i + 1];
            assert(next@ == all[i + 1]);
            assert(rest[1] == all[i + 1]);
            let next_chars = chars_of(next);
            if next_chars.len() == 0 || next_chars[0] == '-' {
                return Err("--root requires a path".to_owned());
            }
            assert(rest.subrange(2, rest.len() as int) =~= all.skip(i + 2));
            root = Some(next.to_owned());
            i += 2;
            continue;
        }
        return Err(concat("unknown argument: ", arg));
    }
    assert(all.skip(i as int) =~= Seq::<Seq<char>>::empty());
    Ok(LaunchArgs { doctor, root })
}

// ---------------------------------------------------------------------------
// The remembered root
// ---------------------------------------------------------------------------

/// The root given at launch, which can be set once.
#[derive(Debug)]
pub struct LaunchRoot {
    value: Option<String>,
}

impl View for LaunchRoot {
    type V = Option<Seq<char>>;

    closed spec fn view(&self) -> Option<Seq<char>> {
        opt_view(self.value)
    }
}

/// The state after an attempt to set `root` in `state`: unchanged when a
/// root is already set.
pub open spec fn after_set(state: Option<Seq<char>>, root: Seq<char>) -> Option<Seq<char>> {
    match state {
        Some(first) => Some(first),
        None => Some(root),
    }
}

/// The message for a second attempt to set the root.
pub open spec fn already_set_message() -> Seq<char> {
    "launch root is already set"@
}

impl LaunchRoot {
    /// No root set.
    pub fn new() -> (res: LaunchRoot)
        ensures
            res@ == None::<Seq<char>>,
    {
        LaunchRoot { value: None }
    }
}

/// Remembers the launch root. Fails, and keeps the first root, when one was
/// already set.
pub fn set_launch_root(cell: &mut LaunchRoot, root: String) -> (res: Result<(), String>)
    ensures
        final(cell)@ == after_set(old(cell)@, root@),
        match res {
            Ok(()) => old(cell)@ is None,
            Err(message) => old(cell)@ is Some && message@ == already_set_message(),
        },
{
    if cell.value.is_some() {
        return Err("launch root is already set".to_owned());
    }
    cell.value = Some(root);
    Ok(())
}

/// The remembered launch root, if any.
pub fn launch_root(cell: &LaunchRoot) -> (res: Option<String>)
    ensures
        opt_view(res) == cell@,
{
    match &cell.value {
        Some(s) => Some(s.clone()),
        None => None,
    }
}

/// The state after attempts to set each of `roots` in turn.
pub open spec fn after_sets(state: Option<Seq<char>>, roots: Seq<Seq<char>>) -> Option<Seq<char>>
    decreases roots.len(),
{
    if roots.len() == 0 {
        state
    } else {
        after_sets(after_set(state, roots[0]), roots.drop_first())
    }
}

/// The root is set at most once: after a first successful setting, any
/// number of later attempts leave the first root in place.
pub proof fn lemma_launch_root_set_once(first: Seq<char>, later: Seq<Seq<char>>)
    ensures
        after_sets(after_set(None, first), later) == Some(first),
    decreases later.len(),
{
    if later.len() > 0 {
        lemma_launch_root_set_once(first, later.drop_first());
    }
}

} // verus!
