//! The configurable components and their command-line declarations.
//!
//! The tables here say which actions, equality checkers, name filters
//! and orderings exist, under which flags, and what the defaults are;
//! the command-line front end renders them into its argument parser.

use vstd::prelude::*;
use crate::file_filters::FileNameFilterKind;
use crate::file_filters::HiddenFileFilter;
use crate::file_set_refiner::FileContentEquals;
use crate::file_set_refiner::FileEqualsCheckerKind;
use crate::file_set_refiner::PermissionEqualChecker;
use crate::util::str_equal;

verus! {

/// A built-in file action, named so the front end can construct it.
#[derive(Debug, Copy, Clone, Eq, PartialEq, Structural)]
pub enum FileActionKind {
    Delete,
    ReplaceWithHardLink,
    ReplaceWithSymlink,
    DebugPrint,
}

/// One ordering of a duplicate set, with its direction.
#[derive(Debug, Copy, Clone, Eq, PartialEq, Structural)]
pub enum SetOrderKind {
    ModTime(bool),
    CreateTime(bool),
    Alphabetic(bool),
    AsIs,
}

/// A flag that selects a file action.
pub struct SimpleFileConsumeActionArg {
    pub name: &'static str,
    pub short: Option<char>,
    pub long: &'static str,
    pub help: &'static str,
    pub default: bool,
    pub action: FileActionKind,
}

/// A flag that toggles an equality checker.
pub struct SimpleFileEqualCheckerArg {
    pub name: &'static str,
    pub short: Option<char>,
    pub long: &'static str,
    pub help: &'static str,
    pub default: bool,
    pub action: FileEqualsCheckerKind,
}

/// A flag that toggles a name filter.
pub struct FileNameFilterArg {
    pub name: &'static str,
    pub short: Option<char>,
    pub long: &'static str,
    pub help: &'static str,
    pub default: bool,
    pub action: FileNameFilterKind,
}

/// One selectable set ordering.
pub struct SetOrderOption {
    pub name: &'static str,
    pub help: &'static str,
    pub implementation: SetOrderKind,
}

/// The platform's extra file actions: replacing a duplicate with a
/// symbolic link.
pub fn get_file_consume_action_simple() -> (r: Vec<SimpleFileConsumeActionArg>)
    ensures
        r@.len() == 1,
        r@[0].action == FileActionKind::ReplaceWithSymlink,
        !r@[0].default,
        r@[0].name@ == "resl"@ && r@[0].short == Some('L') && r@[0].long@ == "resymlink"@,
{
    let mut v: Vec<SimpleFileConsumeActionArg> = Vec::new();
    v.push(
        SimpleFileConsumeActionArg {
            name: "resl",
            short: Some('L'),
            long: "resymlink",
            help: "replace duplicate files with a symlink",
            default: false,
            action: FileActionKind::ReplaceWithSymlink,
        },
    );
    v
}

/// The platform's extra equality checkers: permission equality, off
/// unless its flag is given.
pub fn get_file_equals_arg_simple() -> (r: Vec<SimpleFileEqualCheckerArg>)
    ensures
        r@.len() == 1,
        r@[0].action == FileEqualsCheckerKind::Permission(PermissionEqualChecker {  }),
        !r@[0].default,
        r@[0].name@ == "perm_eq"@ && r@[0].short == Some('p') && r@[0].long@ == "permeq"@,
{
    let mut v: Vec<SimpleFileEqualCheckerArg> = Vec::new();
    v.push(
        SimpleFileEqualCheckerArg {
            name: "perm_eq",
            short: Some('p'),
            long: "permeq",
            help: "consider files with different permissions different files",
            default: false,
            action: FileEqualsCheckerKind::Permission(PermissionEqualChecker::new()),
        },
    );
    v
}

/// The flag that hides hidden files from the walk.
pub fn make_no_hidden() -> (r: FileNameFilterArg)
    ensures
        r.action == FileNameFilterKind::Hidden(HiddenFileFilter {  }),
        !r.default,
        r.name@ == "nohidden"@ && r.short is None && r.long@ == "nohidden"@,
{
    FileNameFilterArg {
        name: "nohidden",
        short: None,
        long: "nohidden",
        help: "do not search hidden files and directories for duplicates",
        default: false,
        action: FileNameFilterKind::Hidden(HiddenFileFilter::new()),
    }
}

/// The platform's extra name filters.
pub fn get_file_name_filters() -> (r: Vec<FileNameFilterArg>)
    ensures
        r@.len() == 1,
        r@[0].action == FileNameFilterKind::Hidden(HiddenFileFilter {  }),
        r@[0].name@ == "nohidden"@ && r@[0].long@ == "nohidden"@,
{
    let mut v: Vec<FileNameFilterArg> = Vec::new();
    v.push(make_no_hidden());
    v
}

/// The built-in file actions with their flags: delete and
/// replace-with-hardlink, then the platform's own.
pub fn get_file_consume_action_args() -> (r: Vec<SimpleFileConsumeActionArg>)
    ensures
        r@.len() == 3,
        r@[0].action == FileActionKind::Delete,
        r@[0].name@ == "isdel"@ && r@[0].short == Some('d') && r@[0].long@ == "delete"@
            && !r@[0].default,
        r@[1].action == FileActionKind::ReplaceWithHardLink,
        r@[1].name@ == "rehl"@ && r@[1].short == Some('l') && r@[1].long@ == "rehardlink"@
            && !r@[1].default,
        r@[2].action == FileActionKind::ReplaceWithSymlink,
        r@[2].name@ == "resl"@ && r@[2].short == Some('L') && r@[2].long@ == "resymlink"@
            && !r@[2].default,
{
    let mut v: Vec<SimpleFileConsumeActionArg> = Vec::new();
    v.push(
        SimpleFileConsumeActionArg {
            name: "isdel",
            short: Some('d'),
            long: "delete",
            help: "Delete duplicated files",
            default: false,
            action: FileActionKind::Delete,
        },
    );
    v.push(
        SimpleFileConsumeActionArg {
            name: "rehl",
            short: Some('l'),
            long: "rehardlink",
            help: "Replace duplicated files with a hard link",
            default: false,
            action: FileActionKind::ReplaceWithHardLink,
        },
    );
    let mut extra = get_file_consume_action_simple();
    match extra.pop() {
        Some(arg) => {
            v.push(arg);
        },
        None => {},
    }
    v
}

/// The built-in equality checkers with their flags: byte-wise content
/// comparison (on by default), then the platform's own.
pub fn get_file_equals_args() -> (r: Vec<SimpleFileEqualCheckerArg>)
    ensures
        r@.len() == 2,
        r@[0].action == FileEqualsCheckerKind::Content(FileContentEquals {  }),
        r@[0].default,
        r@[0].name@ == "contenteq"@ && r@[0].short == Some('c') && r@[0].long@ == "nocontenteq"@,
        r@[1].action == FileEqualsCheckerKind::Permission(PermissionEqualChecker {  }),
        !r@[1].default,
        r@[1].name@ == "perm_eq"@ && r@[1].short == Some('p') && r@[1].long@ == "permeq"@,
{
    let mut v: Vec<SimpleFileEqualCheckerArg> = Vec::new();
    v.push(
        SimpleFileEqualCheckerArg {
            name: "contenteq",
            short: Some('c'),
            long: "nocontenteq",
            help: "do not compare files byte-by-byte(only by hash)",
            default: true,
            action: FileEqualsCheckerKind::Content(FileContentEquals::new()),
        },
    );
    let mut extra = get_file_equals_arg_simple();
    match extra.pop() {
        Some(arg) => {
            v.push(arg);
        },
        None => {},
    }
    v
}

/// The selectable orderings, under the names the command line accepts;
/// an `r` prefix reverses.
pub fn get_set_order_options() -> (r: Vec<SetOrderOption>)
    ensures
        r@.len() == 7,
        r@[0].name@ == "modtime"@ && r@[0].implementation == SetOrderKind::ModTime(false),
        r@[1].name@ == "rmodtime"@ && r@[1].implementation == SetOrderKind::ModTime(true),
        r@[2].name@ == "createtime"@ && r@[2].implementation == SetOrderKind::CreateTime(false),
        r@[3].name@ == "rcreatetime"@ && r@[3].implementation == SetOrderKind::CreateTime(true),
        r@[4].name@ == "alphabetic"@ && r@[4].implementation == SetOrderKind::Alphabetic(false),
        r@[5].name@ == "ralphabetic"@ && r@[5].implementation == SetOrderKind::Alphabetic(true),
        r@[6].name@ == "as_is"@ && r@[6].implementation == SetOrderKind::AsIs,
{
    let mut v: Vec<SetOrderOption> = Vec::new();
    v.push(
        SetOrderOption {
            name: "modtime",
            help: "Order the files from least recently to most recently modified",
            implementation: SetOrderKind::ModTime(false),
        },
    );
    v.push(
        SetOrderOption {
            name: "rmodtime",
            help: "Order the files from most recently to least recently modified",
            implementation: SetOrderKind::ModTime(true),
        },
    );
    v.push(
        SetOrderOption {
            name: "createtime",
            help: "Order the files from oldest to newest",
            implementation: SetOrderKind::CreateTime(false),
        },
    );
    v.push(
        SetOrderOption {
            name: "rcreatetime",
            help: "Order the files from newest to oldest",
            implementation: SetOrderKind::CreateTime(true),
        },
    );
    v.push(
        SetOrderOption {
            name: "alphabetic",
            help: "Order the files alphabetically ascending(may behave strangely with chars that are not ascii letters or digits)",
            implementation: SetOrderKind::Alphabetic(false),
        },
    );
    v.push(
        SetOrderOption {
            name: "ralphabetic",
            help: "Order the files alphabetically descending(risks and side effects of 'alphabetic' apply)",
            implementation: SetOrderKind::Alphabetic(true),
        },
    );
    v.push(
        SetOrderOption {
            name: "as_is",
            help: "Do not order the files; the order is thus non-deterministic and not reproducible",
            implementation: SetOrderKind::AsIs,
        },
    );
    v
}

/// The ordering a name selects, if any.
pub open spec fn order_kind_spec(name: Seq<char>) -> Option<SetOrderKind> {
    if name == "modtime"@ {
        Some(SetOrderKind::ModTime(false))
    } else if name == "rmodtime"@ {
        Some(SetOrderKind::ModTime(true))
    } else if name == "createtime"@ {
        Some(SetOrderKind::CreateTime(false))
    } else if name == "rcreatetime"@ {
        Some(SetOrderKind::CreateTime(true))
    } else if name == "alphabetic"@ {
        Some(SetOrderKind::Alphabetic(false))
    } else if name == "ralphabetic"@ {
        Some(SetOrderKind::Alphabetic(true))
    } else if name == "as_is"@ {
        Some(SetOrderKind::AsIs)
    } else {
        None
    }
}

/// The ordering a name selects, if any.
pub fn order_kind_by_name(name: &str) -> (r: Option<SetOrderKind>)
    ensures
        r == order_kind_spec(name@),
{
    let options = get_set_order_options();
    let mut i: usize = 0;
    while i < 7
        invariant
            i <= 7,
            options@.len() == 7,
            options@[0].name@ == "modtime"@ && options@[0].implementation == SetOrderKind::ModTime(
                false,
            ),
            options@[1].name@ == "rmodtime"@ && options@[1].implementation
                == SetOrderKind::ModTime(true),
            options@[2].name@ == "createtime"@ && options@[2].implementation
                == SetOrderKind::CreateTime(false),
            options@[3].name@ == "rcreatetime"@ && options@[3].implementation
                == SetOrderKind::CreateTime(true),
            options@[4].name@ == "alphabetic"@ && options@[4].implementation
                == SetOrderKind::Alphabetic(false),
            options@[5].name@ == "ralphabetic"@ && options@[5].implementation
                == SetOrderKind::Alphabetic(true),
            options@[6].name@ == "as_is"@ && options@[6].implementation == SetOrderKind::AsIs,
            forall|j: int| 0 <= j < i ==> (#[trigger] options@[j]).name@ != name@,
        decreases 7 - i,
    {
        if str_equal(options[i].name, name) {
            return Some(options[i].implementation);
        }
        i = i + 1;
    }
    None
}

/// The orderings that a run of names selects, in the given order;
/// unrecognised names select nothing.
pub open spec fn selected_orders(names: Seq<String>) -> Seq<SetOrderKind>
    decreases names.len(),
{
    if names.len() == 0 {
        Seq::empty()
    } else {
        let rest = selected_orders(names.drop_last());
        match order_kind_spec(names.last()@) {
            Some(kind) => rest.push(kind),
            None => rest,
        }
    }
}

/// The ordering stack the selected names produce: an empty selection
/// falls back to ascending modification time, and the stack is reversed
/// so the most significant ordering runs last.
pub fn parse_set_order(names: &Vec<String>) -> (r: Vec<SetOrderKind>)
    ensures
        r@.len() >= 1,
        r@ == (if selected_orders(names@).len() == 0 {
            seq![SetOrderKind::ModTime(false)]
        } else {
            selected_orders(names@)
        }).reverse(),
{
    let mut chosen: Vec<SetOrderKind> = Vec::new();
    let n = names.len();
    let mut i: usize = 0;
    proof {
        assert(chosen@ =~= selected_orders(names@.take(0)));
    }
    while i < n
        invariant
            i <= n,
            n == names@.len(),
            chosen@ == selected_orders(names@.take(i as int)),
        decreases n - i,
    {
        proof {
            assert(names@.take(i as int + 1).drop_last() =~= names@.take(i as int));
            assert(names@.take(i as int + 1).last() == names@[i as int]);
        }
        match order_kind_by_name(names[i].as_str()) {
            Some(kind) => {
                chosen.push(kind);
            },
            None => {},
        }
        i = i + 1;
    }
    proof {
        assert(names@.take(n as int) =~= names@);
    }
    if chosen.len() == 0 {
        chosen.push(SetOrderKind::ModTime(false));
        proof {
            assert(chosen@ =~= seq![SetOrderKind::ModTime(false)]);
        }
    }
    // most significant ordering last
    let mut reversed: Vec<SetOrderKind> = Vec::new();
    let total = chosen.len();
    let mut j: usize = total;
    while j > 0
        invariant
            j <= total,
            total == chosen@.len(),
            reversed@.len() == total - j,
            forall|k: int|
                0 <= k < reversed@.len() ==> reversed@[k] == chosen@[total - 1 - k],
        decreases j,
    {
        reversed.push(chosen[j - 1]);
        j = j - 1;
    }
    proof {
        assert(reversed@ =~= chosen@.reverse());
    }
    reversed
}

} // verus!
