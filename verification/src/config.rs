//! The configuration resolver: turns a sequence of command-line tokens and an
//! environment-supplied default into a validated search configuration, or a
//! descriptive error.
//!
//! Tokens are consumed pairwise. `-q`/`--query` and `-p`/`--path` each take
//! the following token as their value and are required; `-i`/`--ignore_case`
//! takes a following token that must be exactly `true` or `false` and
//! overrides the default case sensitivity; any other token is rejected.

use vstd::prelude::*;

use crate::filter::search;
use crate::filter::search_case_insensitive;
use crate::filter::search_ci_spec;
use crate::filter::search_spec;
use crate::filter::str_eq;

verus! {

/// The error when no query value was resolved.
pub const MSG_NO_QUERY: &'static str = "Didn't get a query string";

/// The error when no file-path value was resolved.
pub const MSG_NO_PATH: &'static str = "Didn't get a file path";

/// The error when the case toggle is not followed by `true` or `false`.
pub const MSG_BAD_IGNORE_CASE: &'static str = "wrong input after -i or --ignore_case";

/// The error for a token that is no recognized flag.
pub const MSG_ILLEGAL: &'static str = "Illegal arguments";

/// A validated search request: what to look for, where, and whether case is
/// ignored (`"1"` for yes, any other value for no). Immutable once built.
pub struct Config {
    pub query: String,
    pub file_path: String,
    pub ignore_case: String,
}

/// The view of an optional owned token.
pub open spec fn opt_chars(o: Option<String>) -> Option<Seq<char>> {
    match o {
        Option::Some(s) => Option::Some(s@),
        Option::None => Option::None,
    }
}

/// The encoding of the resolved case toggle: `"1"` for ignoring case.
pub open spec fn toggle_chars(ignore_case: bool) -> Seq<char> {
    if ignore_case {
        "1"@
    } else {
        "0"@
    }
}

/// One pairwise scan step over the remaining tokens, carrying the values
/// resolved so far. `q` and `p` are the query and path seen so far, `ic` the
/// case toggle so far; a later flag overrides an earlier value.
pub open spec fn scan_spec(
    args: Seq<Seq<char>>,
    q: Option<Seq<char>>,
    p: Option<Seq<char>>,
    ic: bool,
) -> Result<(Seq<char>, Seq<char>, bool), Seq<char>>
    decreases args.len(),
{
    if args.len() == 0 {
        if q is None {
            Err(MSG_NO_QUERY@)
        } else if p is None {
            Err(MSG_NO_PATH@)
        } else {
            Ok((q->Some_0, p->Some_0, ic))
        }
    } else if args[0] == "-q"@ || args[0] == "--query"@ {
        if args.len() < 2 {
            Err(MSG_NO_QUERY@)
        } else {
            scan_spec(args.subrange(2, args.len() as int), Some(args[1]), p, ic)
        }
    } else if args[0] == "-p"@ || args[0] == "--path"@ {
        if args.len() < 2 {
            Err(MSG_NO_PATH@)
        } else {
            scan_spec(args.subrange(2, args.len() as int), q, Some(args[1]), ic)
        }
    } else if args[0] == "-i"@ || args[0] == "--ignore_case"@ {
        if args.len() >= 2 && args[1] == "true"@ {
            scan_spec(args.subrange(2, args.len() as int), q, p, true)
        } else if args.len() >= 2 && args[1] == "false"@ {
            scan_spec(args.subrange(2, args.len() as int), q, p, false)
        } else {
            Err(MSG_BAD_IGNORE_CASE@)
        }
    } else {
        Err(MSG_ILLEGAL@)
    }
}

/// What resolving a whole command line yields: scan all tokens, starting with
/// no query, no path, and the environment-supplied case default.
pub open spec fn resolve_spec(args: Seq<Seq<char>>, ignore_case_default: bool) -> Result<
    (Seq<char>, Seq<char>, bool),
    Seq<char>,
> {
    scan_spec(args, Option::None, Option::None, ignore_case_default)
}

/// Whether an exec resolver result agrees with the resolved triple or error
/// that `resolve_spec` assigns to the same command line.
pub open spec fn resolution_matches(
    r: Result<(String, String, String), &'static str>,
    out: Result<(Seq<char>, Seq<char>, bool), Seq<char>>,
) -> bool {
    match r {
        Ok(t) => out is Ok && t.0@ == out->Ok_0.0 && t.1@ == out->Ok_0.1 && t.2@ == toggle_chars(
            out->Ok_0.2,
        ),
        Err(e) => out is Err && e@ == out->Err_0,
    }
}

impl Config {
    /// Scans the argument tokens pairwise into the resolved `(query,
    /// file_path, ignore_case)` triple, or the first error. `ignore_case`
    /// starts from `ignore_case_default` (the environment) and an explicit
    /// `-i`/`--ignore_case` pair overrides it.
    pub fn parse_arguements(args: &Vec<String>, ignore_case_default: bool) -> (r: Result<
        (String, String, String),
        &'static str,
    >)
        ensures
            resolution_matches(r, resolve_spec(args.deep_view(), ignore_case_default)),
    {
        let ghost all = args.deep_view();
        let n: usize = args.len();
        let mut query: Option<String> = None;
        let mut path: Option<String> = None;
        let mut ic: bool = ignore_case_default;
        let mut i: usize = 0;
        proof {
            assert(all.subrange(0, n as int) =~= all);
        }
        while i < n
            invariant
                i <= n,
                n == args.len(),
                all == args.deep_view(),
                scan_spec(all.subrange(i as int, n as int), opt_chars(query), opt_chars(path), ic)
                    == resolve_spec(all, ignore_case_default),
            decreases n - i,
        {
            proof {
                assert(all.subrange(i as int, n as int)[0] == all[i as int]);
                assert(all[i as int] == args@[i as int]@);
            }
            let tok: &str = args[i].as_str();
            if str_eq(tok, "-q") || str_eq(tok, "--query") {
                if i + 1 >= n {
                    proof {
                        assert(all.subrange(i as int, n as int).len() < 2);
                    }
                    return Err(MSG_NO_QUERY);
                }
                proof {
                    assert(all.subrange(i as int, n as int)[1] == all[i as int + 1]);
                    assert(all.subrange(i as int, n as int).subrange(
                        2,
                        all.subrange(i as int, n as int).len() as int,
                    ) =~= all.subrange(i as int + 2, n as int));
                }
                query = Some(args[i + 1].clone());
                i += 2;
            } else if str_eq(tok, "-p") || str_eq(tok, "--path") {
                if i + 1 >= n {
                    proof {
                        assert(all.subrange(i as int, n as int).len() < 2);
                    }
                    return Err(MSG_NO_PATH);
                }
                proof {
                    assert(all.subrange(i as int, n as int)[1] == all[i as int + 1]);
                    assert(all.subrange(i as int, n as int).subrange(
                        2,
                        all.subrange(i as int, n as int).len() as int,
                    ) =~= all.subrange(i as int + 2, n as int));
                }
                path = Some(args[i + 1].clone());
                i += 2;
            } else if str_eq(tok, "-i") || str_eq(tok, "--ignore_case") {
                if i + 1 >= n {
                    proof {
                        assert(all.subrange(i as int, n as int).len() < 2);
                    }
                    return Err(MSG_BAD_IGNORE_CASE);
                }
                proof {
                    assert(all.subrange(i as int, n as int)[1] == all[i as int + 1]);
                    assert(all.subrange(i as int, n as int).subrange(
                        2,
                        all.subrange(i as int, n as int).len() as int,
                    ) =~= all.subrange(i as int + 2, n as int));
                }
                let value: &str = args[i + 1].as_str();
                if str_eq(value, "true") {
                    ic = true;
                } else if str_eq(value, "false") {
                    ic = false;
                } else {
                    return Err(MSG_BAD_IGNORE_CASE);
                }
                i += 2;
            } else {
                return Err(MSG_ILLEGAL);
            }
        }
        proof {
            assert(all.subrange(n as int, n as int) =~= Seq::<Seq<char>>::empty());
        }
        match query {
            None => Err(MSG_NO_QUERY),
            Some(q) => match path {
                None => Err(MSG_NO_PATH),
                Some(p) => Ok(
                    (
                        q,
                        p,
                        if ic {
                            "1".to_owned()
                        } else {
                            "0".to_owned()
                        },
                    ),
                ),
            },
        }
    }

    /// Builds a `Config` from the argument tokens and the environment-supplied
    /// case default, or reports the first resolution error.
    pub fn build(args: &Vec<String>, ignore_case_default: bool) -> (r: Result<
        Config,
        &'static str,
    >)
        ensures
            ({
                let out = resolve_spec(args.deep_view(), ignore_case_default);
                match r {
                    Ok(c) => out is Ok && c.query@ == out->Ok_0.0 && c.file_path@ == out->Ok_0.1
                        && c.ignore_case@ == toggle_chars(out->Ok_0.2),
                    Err(e) => out is Err && e@ == out->Err_0,
                }
            }),
    {
        match Self::parse_arguements(args, ignore_case_default) {
            Ok((query, file_path, ignore_case)) => Ok(Config { query, file_path, ignore_case }),
            Err(e) => Err(e),
        }
    }
}

/// Whether token `k` of `args` starts a well-formed flag pair that is not the
/// query flag: a path pair, or a case-toggle pair with a legal value.
pub open spec fn non_query_pair_at(args: Seq<Seq<char>>, k: int) -> bool {
    args[k] == "-p"@ || args[k] == "--path"@ || ((args[k] == "-i"@ || args[k] == "--ignore_case"@)
        && (args[k + 1] == "true"@ || args[k + 1] == "false"@))
}

proof fn lemma_scan_missing_query(args: Seq<Seq<char>>, p: Option<Seq<char>>, ic: bool)
    requires
        args.len() % 2 == 0,
        forall|k: int| 0 <= k < args.len() && k % 2 == 0 ==> #[trigger] non_query_pair_at(args, k),
    ensures
        scan_spec(args, Option::None, p, ic) == Err::<(Seq<char>, Seq<char>, bool), Seq<char>>(
            MSG_NO_QUERY@,
        ),
    decreases args.len(),
{
    reveal_strlit("-q");
    reveal_strlit("--query");
    reveal_strlit("-p");
    reveal_strlit("--path");
    reveal_strlit("-i");
    reveal_strlit("--ignore_case");
    if args.len() > 0 {
        assert(non_query_pair_at(args, 0));
        assert(args[0] != "-q"@ && args[0] != "--query"@) by {
            assert("-p"@.len() == 2 && "-q"@.len() == 2 && "-i"@.len() == 2);
            assert("--path"@.len() == 6 && "--query"@.len() == 7 && "--ignore_case"@.len() == 13);
            assert("-p"@[1] == 'p' && "-q"@[1] == 'q' && "-i"@[1] == 'i');
            assert("--path"@[2] == 'p' && "--query"@[2] == 'q' && "--ignore_case"@[2] == 'i');
        }
        let tail = args.subrange(2, args.len() as int);
        assert(tail.len() % 2 == 0);
        assert forall|k: int| 0 <= k < tail.len() && k % 2 == 0 implies #[trigger] non_query_pair_at(
            tail,
            k,
        ) by {
            assert(non_query_pair_at(args, k + 2));
            assert(tail[k] == args[k + 2]);
            assert(k + 1 < tail.len() ==> tail[k + 1] == args[k + 3]);
        }
        if args[0] == "-p"@ || args[0] == "--path"@ {
            lemma_scan_missing_query(tail, Some(args[1]), ic);
        } else {
            if args[1] == "true"@ {
                lemma_scan_missing_query(tail, p, true);
            } else {
                lemma_scan_missing_query(tail, p, false);
            }
        }
    }
}

/// A command line that never passes `-q`/`--query` — every flag pair names
/// the file path or legally sets the case toggle — resolves to exactly the
/// error "Didn't get a query string", never to a configuration, so a run
/// stops before any file is touched.
pub proof fn lemma_missing_query_fails(args: Seq<Seq<char>>, ignore_case_default: bool)
    requires
        args.len() % 2 == 0,
        forall|k: int| 0 <= k < args.len() && k % 2 == 0 ==> #[trigger] non_query_pair_at(args, k),
    ensures
        resolve_spec(args, ignore_case_default) == Err::<(Seq<char>, Seq<char>, bool), Seq<char>>(
            MSG_NO_QUERY@,
        ),
{
    lemma_scan_missing_query(args, Option::None, ignore_case_default);
}

/// The filtering step of one run: picks the search variant that the resolved
/// configuration asks for (case-insensitive exactly when `ignore_case` is
/// `"1"`) and returns the matching lines of `contents`.
pub fn matching_lines<'a>(config: &Config, contents: &'a str) -> (r: Vec<&'a str>)
    ensures
        r@.map_values(|l: &str| l@) == if config.ignore_case@ == "1"@ {
            search_ci_spec(config.query@, contents@)
        } else {
            search_spec(config.query@, contents@)
        },
{
    if str_eq(config.ignore_case.as_str(), "1") {
        search_case_insensitive(config.query.as_str(), contents)
    } else {
        search(config.query.as_str(), contents)
    }
}

} // verus!
