use vstd::prelude::*;
use crate::error::KlsError;
use crate::utils::{str_to_chars, contains_char, chars_to_string, StrUtil, spec_substr};

verus! {

/// The two effective options of a run.
pub struct Opts {
    pub long_format: bool,
    pub all_files: bool,
}

/// The parsed invocation: the requested root paths and the options.
pub struct Params {
    pub paths: Vec<String>,
    pub opts: Opts,
}

/// Whether the argument opens with `--`.
pub open spec fn spec_is_long_arg(a: Seq<char>) -> bool {
    a.len() >= 2 && a[0] == '-' && a[1] == '-'
}

/// Whether the argument opens with `-` but not `--`.
pub open spec fn spec_is_short_arg(a: Seq<char>) -> bool {
    a.len() >= 1 && a[0] == '-' && !spec_is_long_arg(a)
}

/// Whether the argument is a `--` form that the program does not know.
pub open spec fn spec_bad_arg(a: Seq<char>) -> bool {
    spec_is_long_arg(a) && a.skip(2) != "long-format"@ && a.skip(2) != "-all"@
}

/// Whether the argument switches the long format on.
pub open spec fn spec_sets_long(a: Seq<char>) -> bool {
    ||| (spec_is_long_arg(a) && a.skip(2) == "long-format"@)
    ||| (spec_is_short_arg(a) && a.skip(1).contains('l'))
}

/// Whether the argument switches hidden entries on.
pub open spec fn spec_sets_all(a: Seq<char>) -> bool {
    ||| (spec_is_long_arg(a) && a.skip(2) == "-all"@)
    ||| (spec_is_short_arg(a) && a.skip(1).contains('a'))
}

/// Whether the argument names a path rather than a flag.
pub open spec fn spec_is_path_arg(a: Seq<char>) -> bool {
    !(a.len() >= 1 && a[0] == '-')
}

/// The position of the first argument that is rejected, if any.
pub open spec fn spec_first_bad(args: Seq<Seq<char>>) -> Option<int>
    decreases args.len(),
{
    if args.len() == 0 {
        None
    } else if spec_bad_arg(args.first()) {
        Some(0)
    } else {
        match spec_first_bad(args.drop_first()) {
            None => None,
            Some(i) => Some(i + 1),
        }
    }
}

/// Whether any argument switches the long format on.
pub open spec fn spec_any_long(args: Seq<Seq<char>>) -> bool
    decreases args.len(),
{
    if args.len() == 0 {
        false
    } else {
        spec_sets_long(args.first()) || spec_any_long(args.drop_first())
    }
}

/// Whether any argument switches hidden entries on.
pub open spec fn spec_any_all(args: Seq<Seq<char>>) -> bool
    decreases args.len(),
{
    if args.len() == 0 {
        false
    } else {
        spec_sets_all(args.first()) || spec_any_all(args.drop_first())
    }
}

/// The requested paths: the non-flag arguments, or `./` when none was given.
pub open spec fn spec_paths(args: Seq<Seq<char>>) -> Seq<Seq<char>> {
    let given = args.filter(|a: Seq<char>| spec_is_path_arg(a));
    if given.len() == 0 {
        seq!["./"@]
    } else {
        given
    }
}

/// A prefix free of rejected arguments pins the first rejected one.
proof fn lemma_first_bad_at(args: Seq<Seq<char>>, i: int)
    requires
        0 <= i <= args.len(),
        forall|j: int| 0 <= j < i ==> !spec_bad_arg(#[trigger] args[j]),
    ensures
        i < args.len() && spec_bad_arg(args[i]) ==> spec_first_bad(args) == Some(i),
        i == args.len() ==> spec_first_bad(args) is None,
    decreases i,
{
    if args.len() > 0 && !spec_bad_arg(args.first()) {
        if i > 0 {
            lemma_first_bad_at(args.drop_first(), i - 1);
        }
    }
    if i == args.len() && args.len() > 0 {
        lemma_first_bad_at(args.drop_first(), i - 1);
    }
}

impl Params {
    /// Reads the command-line arguments (the program name already removed):
    /// `--long-format` and `---all` set the two options by name, a single-dash
    /// argument sets them by the letters `l` and `a` it holds, anything else
    /// is a path; an unknown `--` argument is a configuration error. Without
    /// any path the current directory stands in.
    pub fn new(args: Vec<String>) -> (r: Result<Params, KlsError>)
        ensures
            r is Err <==> spec_first_bad(args.deep_view()) is Some,
            r matches Err(e) ==> e matches KlsError::S(m) && m@ == "Unknown argument: --"@
                + args.deep_view()[spec_first_bad(args.deep_view())->0].skip(2),
            r matches Ok(p) ==> {
                &&& p.opts.long_format == spec_any_long(args.deep_view())
                &&& p.opts.all_files == spec_any_all(args.deep_view())
                &&& p.paths.deep_view() == spec_paths(args.deep_view())
            },
    {
        let ghost a = args.deep_view();
        let mut paths: Vec<String> = Vec::new();
        let mut long_format: bool = false;
        let mut all_files: bool = false;
        let n = args.len();
        let mut i: usize = 0;
        proof {
            assert(a.skip(0) =~= a);
            assert(a.take(0).filter(|x: Seq<char>| spec_is_path_arg(x)) =~= Seq::empty());
        }
        while i < n
            invariant
                i <= n,
                n == args.len(),
                a == args.deep_view(),
                forall|j: int| 0 <= j < i ==> !spec_bad_arg(#[trigger] a[j]),
                spec_any_long(a) == (long_format || spec_any_long(a.skip(i as int))),
                spec_any_all(a) == (all_files || spec_any_all(a.skip(i as int))),
                paths.deep_view() == a.take(i as int).filter(|x: Seq<char>| spec_is_path_arg(x)),
            decreases n - i,
        {
            let arg = &args[i];
            let cs = str_to_chars(arg.as_str());
            proof {
                reveal_strlit("long-format");
                reveal_strlit("-all");
                assert("long-format"@.len() != "-all"@.len());
                assert(cs@ == a[i as int]);
                assert(a.skip(i as int).first() == a[i as int]);
                assert(a.skip(i as int).drop_first() =~= a.skip(i + 1));
                reveal(Seq::filter);
                assert(a.take(i + 1).drop_last() =~= a.take(i as int));
                assert(a.take(i + 1).last() == a[i as int]);
            }
            if cs.len() >= 2 && cs[0] == '-' && cs[1] == '-' {
                let rest = arg.substr_after(2);
                proof {
                    assert(rest@ =~= a[i as int].skip(2));
                }
                if rest == String::from_str("long-format") {
                    long_format = true;
                } else if rest == String::from_str("-all") {
                    all_files = true;
                } else {
                    proof {
                        lemma_first_bad_at(a, i as int);
                    }
                    let mut m = String::from_str("Unknown argument: --");
                    m.append(rest.as_str());
                    return Err(KlsError::S(m));
                }
            } else if cs.len() >= 1 && cs[0] == '-' {
                let rest = str_to_chars(arg.substr_after(1).as_str());
                proof {
                    assert(rest@ =~= a[i as int].skip(1));
                }
                if contains_char(&rest, 'l') {
                    long_format = true;
                }
                if contains_char(&rest, 'a') {
                    all_files = true;
                }
            } else {
                paths.push(arg.clone());
                proof {
                    assert(paths.deep_view() =~= a.take(i + 1).filter(
                        |x: Seq<char>| spec_is_path_arg(x)));
                }
            }
            i += 1;
        }
        proof {
            lemma_first_bad_at(a, n as int);
            assert(a.skip(n as int).len() == 0);
            assert(a.take(n as int) =~= a);
        }
        if paths.len() == 0 {
            paths.push(String::from_str("./"));
            proof {
                assert(paths.deep_view() =~= seq!["./"@]);
            }
        }
        Ok(Params { paths, opts: Opts { long_format, all_files } })
    }
}

} // verus!
