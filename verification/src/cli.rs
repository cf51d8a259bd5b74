//! The decisions of the command line: reading its flags, matching file
//! extensions, and settling the list of input files.
//!
//! Walking directories is the caller's part: it expands each directory
//! argument into the files below it whose extension matches (see
//! `matches_extension`), keeps every other argument as it is, and hands the
//! result to `resolve_*`. With no argument at all, the caller lists the
//! matching files under the current directory instead.
use vstd::prelude::*;
use crate::model::texts;
use crate::strings::str_eq;

verus! {

/// Which output `scan` gives.
#[derive(Debug, Clone, Copy, PartialEq, Eq)]
pub enum ScanStage {
    Abstract,
    Summary,
}

/// The config path and the input paths that `compare` was given, walking
/// `args` after an earlier `config` and `paths`.
pub open spec fn spec_compare_args(
    args: Seq<Seq<char>>,
    config: Option<Seq<char>>,
    paths: Seq<Seq<char>>,
) -> Result<(Option<Seq<char>>, Seq<Seq<char>>), Seq<char>>
    decreases args.len(),
{
    if args.len() == 0 {
        Ok((config, paths))
    } else if args[0] == "--config"@ {
        if args.len() < 2 {
            Err("--config requires a value"@)
        } else {
            spec_compare_args(args.skip(2), Some(args[1]), paths)
        }
    } else {
        spec_compare_args(args.drop_first(), config, paths.push(args[0]))
    }
}

/// The model of an optional text.
pub open spec fn opt_text(o: Option<String>) -> Option<Seq<char>> {
    match o {
        Some(s) => Some(s@),
        None => None,
    }
}

/// Reads the arguments of `compare`: `--config <path>` sets the config (the
/// last one wins), every other argument is an input path.
pub fn parse_compare_args(args: Vec<String>) -> (r: Result<(Option<String>, Vec<String>), String>)
    ensures
        match (r, spec_compare_args(texts(args@), None, Seq::empty())) {
            (Ok((c, p)), Ok((sc, sp))) => opt_text(c) == sc && texts(p@) == sp,
            (Err(e), Err(se)) => e@ == se,
            _ => false,
        },
{
    let mut config: Option<String> = None;
    let mut paths: Vec<String> = Vec::new();
    let n = args.len();
    let mut i: usize = 0;
    let ghost all = texts(args@);
    assert(all.skip(0) =~= all);
    assert(texts(paths@) =~= Seq::<Seq<char>>::empty());
    while i < n
        invariant
            n == args@.len(),
            all == texts(args@),
            i <= n,
            spec_compare_args(all, None, Seq::empty()) == spec_compare_args(
                all.skip(i as int),
                opt_text(config),
                texts(paths@),
            ),
        decreases n - i,
    {
        let ghost rest = all.skip(i as int);
        assert(rest[0] == args@[i as int]@);
        if str_eq(args[i].as_str(), "--config") {
            if i + 1 >= n {
                return Err(String::from_str("--config requires a value"));
            }
            assert(rest[1] == args@[i + 1]@);
            assert(rest.skip(2) =~= all.skip(i + 2));
            config = Some(args[i + 1].clone());
            i = i + 2;
        } else {
            assert(rest.drop_first() =~= all.skip(i + 1));
            let ghost before = texts(paths@);
            paths.push(args[i].clone());
            assert(texts(paths@) =~= before.push(args@[i as int]@));
            i = i + 1;
        }
    }
    assert(all.skip(i as int) =~= Seq::<Seq<char>>::empty());
    Ok((config, paths))
}

proof fn lemma_compare_args_prefix(
    a: Seq<Seq<char>>,
    rest: Seq<Seq<char>>,
    config: Option<Seq<char>>,
    paths: Seq<Seq<char>>,
)
    requires
        spec_compare_args(a, config, paths) is Ok,
    ensures
        spec_compare_args(a + rest, config, paths) == spec_compare_args(
            rest,
            spec_compare_args(a, config, paths)->Ok_0.0,
            spec_compare_args(a, config, paths)->Ok_0.1,
        ),
    decreases a.len(),
{
    if a.len() == 0 {
        assert(a + rest =~= rest);
    } else {
        assert((a + rest)[0] == a[0]);
        if a[0] == "--config"@ {
            assert((a + rest)[1] == a[1]);
            assert((a + rest).skip(2) =~= a.skip(2) + rest);
            lemma_compare_args_prefix(a.skip(2), rest, Some(a[1]), paths);
        } else {
            assert((a + rest).drop_first() =~= a.drop_first() + rest);
            lemma_compare_args_prefix(a.drop_first(), rest, config, paths.push(a[0]));
        }
    }
}

proof fn lemma_compare_args_plain(
    b: Seq<Seq<char>>,
    config: Option<Seq<char>>,
    paths: Seq<Seq<char>>,
)
    requires
        forall|i: int| 0 <= i < b.len() ==> b[i] != "--config"@,
    ensures
        spec_compare_args(b, config, paths) == Ok::<(Option<Seq<char>>, Seq<Seq<char>>), Seq<char>>(
            (config, paths + b),
        ),
    decreases b.len(),
{
    if b.len() == 0 {
        assert(paths + b =~= paths);
    } else {
        assert(b[0] != "--config"@);
        assert forall|i: int| 0 <= i < b.drop_first().len() implies b.drop_first()[i] != "--config"@ by {
            assert(b.drop_first()[i] == b[i + 1]);
        }
        lemma_compare_args_plain(b.drop_first(), config, paths.push(b[0]));
        assert(paths.push(b[0]) + b.drop_first() =~= paths + b);
    }
}

/// `--config <v>` means the same wherever it stands: put between arguments
/// `a` that read on their own and arguments `b` that hold no `--config`, it
/// sets the config to `v`, and the inputs are those of `a`, then all of `b`.
pub proof fn law_compare_config_anywhere(a: Seq<Seq<char>>, v: Seq<char>, b: Seq<Seq<char>>)
    requires
        spec_compare_args(a, None, Seq::empty()) is Ok,
        forall|i: int| 0 <= i < b.len() ==> b[i] != "--config"@,
    ensures
        spec_compare_args(a + seq!["--config"@, v] + b, None, Seq::empty()) == Ok::<
            (Option<Seq<char>>, Seq<Seq<char>>),
            Seq<char>,
        >((Some(v), spec_compare_args(a, None, Seq::empty())->Ok_0.1 + b)),
{
    let rest = seq!["--config"@, v] + b;
    assert(a + seq!["--config"@, v] + b =~= a + rest);
    lemma_compare_args_prefix(a, rest, None, Seq::empty());
    let pa = spec_compare_args(a, None, Seq::empty())->Ok_0.1;
    assert(rest[0] == "--config"@);
    assert(rest[1] == v);
    assert(rest.skip(2) =~= b);
    lemma_compare_args_plain(b, Some(v), pa);
}

/// Arguments with no `--config` are all inputs, in the order given, and set no config.
pub proof fn law_compare_plain_args_are_inputs(b: Seq<Seq<char>>)
    requires
        forall|i: int| 0 <= i < b.len() ==> b[i] != "--config"@,
    ensures
        spec_compare_args(b, None, Seq::empty()) == Ok::<
            (Option<Seq<char>>, Seq<Seq<char>>),
            Seq<char>,
        >((None, b)),
{
    lemma_compare_args_plain(b, None, Seq::empty());
    assert(Seq::<Seq<char>>::empty() + b =~= b);
}

/// The stage, config path and input paths that `scan` was given, walking
/// `args` after an earlier `stage`, `config` and `paths`.
pub open spec fn spec_scan_args(
    args: Seq<Seq<char>>,
    stage: ScanStage,
    config: Option<Seq<char>>,
    paths: Seq<Seq<char>>,
) -> Result<(ScanStage, Option<Seq<char>>, Seq<Seq<char>>), Seq<char>>
    decreases args.len(),
{
    if args.len() == 0 {
        Ok((stage, config, paths))
    } else if args[0] == "--stage"@ {
        if args.len() < 2 {
            Err("--stage requires a value"@)
        } else if args[1] == "abstract"@ {
            spec_scan_args(args.skip(2), ScanStage::Abstract, config, paths)
        } else if args[1] == "summary"@ {
            spec_scan_args(args.skip(2), ScanStage::Summary, config, paths)
        } else {
            Err("unknown scan stage: "@ + args[1] + " (expected: abstract, summary)"@)
        }
    } else if args[0] == "--config"@ {
        if args.len() < 2 {
            Err("--config requires a value"@)
        } else {
            spec_scan_args(args.skip(2), stage, Some(args[1]), paths)
        }
    } else {
        spec_scan_args(args.drop_first(), stage, config, paths.push(args[0]))
    }
}

/// Reads the arguments of `scan`: `--stage abstract|summary` picks the output
/// (the last one wins), `--config <path>` sets the config (the last one wins),
/// every other argument is an input path.
pub fn parse_scan_args(args: Vec<String>) -> (r: Result<
    (ScanStage, Option<String>, Vec<String>),
    String,
>)
    ensures
        match (r, spec_scan_args(texts(args@), ScanStage::Abstract, None, Seq::empty())) {
            (Ok((s, c, p)), Ok((ss, sc, sp))) => s == ss && opt_text(c) == sc && texts(p@) == sp,
            (Err(e), Err(se)) => e@ == se,
            _ => false,
        },
{
    let mut stage = ScanStage::Abstract;
    let mut config: Option<String> = None;
    let mut paths: Vec<String> = Vec::new();
    let n = args.len();
    let mut i: usize = 0;
    let ghost all = texts(args@);
    assert(all.skip(0) =~= all);
    assert(texts(paths@) =~= Seq::<Seq<char>>::empty());
    while i < n
        invariant
            n == args@.len(),
            all == texts(args@),
            i <= n,
            spec_scan_args(all, ScanStage::Abstract, None, Seq::empty()) == spec_scan_args(
                all.skip(i as int),
                stage,
                opt_text(config),
                texts(paths@),
            ),
        decreases n - i,
    {
        let ghost rest = all.skip(i as int);
        assert(rest[0] == args@[i as int]@);
        if str_eq(args[i].as_str(), "--stage") {
            if i + 1 >= n {
                return Err(String::from_str("--stage requires a value"));
            }
            assert(rest[1] == args@[i + 1]@);
            assert(rest.skip(2) =~= all.skip(i + 2));
            let value = args[i + 1].as_str();
            if str_eq(value, "abstract") {
                stage = ScanStage::Abstract;
            } else if str_eq(value, "summary") {
                stage = ScanStage::Summary;
            } else {
                let mut m = String::from_str("unknown scan stage: ");
                m.append(value);
                m.append(" (expected: abstract, summary)");
                return Err(m);
            }
            i = i + 2;
        } else if str_eq(args[i].as_str(), "--config") {
            if i + 1 >= n {
                return Err(String::from_str("--config requires a value"));
            }
            assert(rest[1] == args@[i + 1]@);
            assert(rest.skip(2) =~= all.skip(i + 2));
            config = Some(args[i + 1].clone());
            i = i + 2;
        } else {
            assert(rest.drop_first() =~= all.skip(i + 1));
            let ghost before = texts(paths@);
            paths.push(args[i].clone());
            assert(texts(paths@) =~= before.push(args@[i as int]@));
            i = i + 1;
        }
    }
    assert(all.skip(i as int) =~= Seq::<Seq<char>>::empty());
    Ok((stage, config, paths))
}

proof fn lemma_scan_args_prefix(
    a: Seq<Seq<char>>,
    rest: Seq<Seq<char>>,
    stage: ScanStage,
    config: Option<Seq<char>>,
    paths: Seq<Seq<char>>,
)
    requires
        spec_scan_args(a, stage, config, paths) is Ok,
    ensures
        spec_scan_args(a + rest, stage, config, paths) == spec_scan_args(
            rest,
            spec_scan_args(a, stage, config, paths)->Ok_0.0,
            spec_scan_args(a, stage, config, paths)->Ok_0.1,
            spec_scan_args(a, stage, config, paths)->Ok_0.2,
        ),
    decreases a.len(),
{
    if a.len() == 0 {
        assert(a + rest =~= rest);
    } else {
        assert((a + rest)[0] == a[0]);
        if a[0] == "--stage"@ || a[0] == "--config"@ {
            assert((a + rest)[1] == a[1]);
            assert((a + rest).skip(2) =~= a.skip(2) + rest);
            if a[0] == "--stage"@ {
                if a[1] == "abstract"@ {
                    lemma_scan_args_prefix(a.skip(2), rest, ScanStage::Abstract, config, paths);
                } else {
                    lemma_scan_args_prefix(a.skip(2), rest, ScanStage::Summary, config, paths);
                }
            } else {
                lemma_scan_args_prefix(a.skip(2), rest, stage, Some(a[1]), paths);
            }
        } else {
            assert((a + rest).drop_first() =~= a.drop_first() + rest);
            lemma_scan_args_prefix(a.drop_first(), rest, stage, config, paths.push(a[0]));
        }
    }
}

/// No `--stage` and no `--config` among `b`.
pub open spec fn no_flags(b: Seq<Seq<char>>) -> bool {
    forall|i: int| 0 <= i < b.len() ==> b[i] != "--stage"@ && b[i] != "--config"@
}

proof fn lemma_scan_args_plain(
    b: Seq<Seq<char>>,
    stage: ScanStage,
    config: Option<Seq<char>>,
    paths: Seq<Seq<char>>,
)
    requires
        no_flags(b),
    ensures
        spec_scan_args(b, stage, config, paths) == Ok::<
            (ScanStage, Option<Seq<char>>, Seq<Seq<char>>),
            Seq<char>,
        >((stage, config, paths + b)),
    decreases b.len(),
{
    if b.len() == 0 {
        assert(paths + b =~= paths);
    } else {
        assert(b[0] != "--stage"@ && b[0] != "--config"@);
        assert forall|i: int| 0 <= i < b.drop_first().len() implies b.drop_first()[i] != "--stage"@
            && b.drop_first()[i] != "--config"@ by {
            assert(b.drop_first()[i] == b[i + 1]);
        }
        lemma_scan_args_plain(b.drop_first(), stage, config, paths.push(b[0]));
        assert(paths.push(b[0]) + b.drop_first() =~= paths + b);
    }
}

/// Arguments with neither flag are all inputs, in the order given, with the
/// abstract stage and no config.
pub proof fn law_scan_plain_args_are_inputs(b: Seq<Seq<char>>)
    requires
        no_flags(b),
    ensures
        spec_scan_args(b, ScanStage::Abstract, None, Seq::empty()) == Ok::<
            (ScanStage, Option<Seq<char>>, Seq<Seq<char>>),
            Seq<char>,
        >((ScanStage::Abstract, None, b)),
{
    lemma_scan_args_plain(b, ScanStage::Abstract, None, Seq::empty());
    assert(Seq::<Seq<char>>::empty() + b =~= b);
}

/// `--config <v>` means the same wherever it stands among the `scan`
/// arguments: after arguments `a` that read on their own and before
/// arguments `b` with neither flag, it sets the config to `v` and keeps the
/// stage of `a`; the inputs are those of `a`, then all of `b`.
pub proof fn law_scan_config_anywhere(a: Seq<Seq<char>>, v: Seq<char>, b: Seq<Seq<char>>)
    requires
        spec_scan_args(a, ScanStage::Abstract, None, Seq::empty()) is Ok,
        no_flags(b),
    ensures
        spec_scan_args(a + seq!["--config"@, v] + b, ScanStage::Abstract, None, Seq::empty())
            == Ok::<(ScanStage, Option<Seq<char>>, Seq<Seq<char>>), Seq<char>>(
            (
                spec_scan_args(a, ScanStage::Abstract, None, Seq::empty())->Ok_0.0,
                Some(v),
                spec_scan_args(a, ScanStage::Abstract, None, Seq::empty())->Ok_0.2 + b,
            ),
        ),
{
    let rest = seq!["--config"@, v] + b;
    assert(a + seq!["--config"@, v] + b =~= a + rest);
    lemma_scan_args_prefix(a, rest, ScanStage::Abstract, None, Seq::empty());
    let r = spec_scan_args(a, ScanStage::Abstract, None, Seq::empty())->Ok_0;
    assert(rest[0] == "--config"@);
    assert(rest[1] == v);
    assert(rest.skip(2) =~= b);
    reveal_strlit("--config");
    reveal_strlit("--stage");
    assert("--config"@ != "--stage"@) by {
        assert("--config"@[2] != "--stage"@[2]);
    }
    lemma_scan_args_plain(b, r.0, Some(v), r.2);
}

/// `--stage summary` means the same wherever it stands among the `scan`
/// arguments: after arguments `a` that read on their own and before
/// arguments `b` with neither flag, it picks the summary stage and keeps the
/// config of `a`; the inputs are those of `a`, then all of `b`.
pub proof fn law_scan_stage_anywhere(a: Seq<Seq<char>>, b: Seq<Seq<char>>)
    requires
        spec_scan_args(a, ScanStage::Abstract, None, Seq::empty()) is Ok,
        no_flags(b),
    ensures
        spec_scan_args(
            a + seq!["--stage"@, "summary"@] + b,
            ScanStage::Abstract,
            None,
            Seq::empty(),
        ) == Ok::<(ScanStage, Option<Seq<char>>, Seq<Seq<char>>), Seq<char>>(
            (
                ScanStage::Summary,
                spec_scan_args(a, ScanStage::Abstract, None, Seq::empty())->Ok_0.1,
                spec_scan_args(a, ScanStage::Abstract, None, Seq::empty())->Ok_0.2 + b,
            ),
        ),
{
    let rest = seq!["--stage"@, "summary"@] + b;
    assert(a + seq!["--stage"@, "summary"@] + b =~= a + rest);
    lemma_scan_args_prefix(a, rest, ScanStage::Abstract, None, Seq::empty());
    let r = spec_scan_args(a, ScanStage::Abstract, None, Seq::empty())->Ok_0;
    assert(rest[0] == "--stage"@);
    assert(rest[1] == "summary"@);
    assert(rest.skip(2) =~= b);
    reveal_strlit("abstract");
    reveal_strlit("summary");
    assert("summary"@ != "abstract"@) by {
        assert("summary"@[0] != "abstract"@[0]);
    }
    lemma_scan_args_plain(b, ScanStage::Summary, r.1, r.2);
}

/// A character with ASCII capitals read as small letters, by code point.
pub open spec fn ascii_lower(c: char) -> int {
    if 65 <= (c as int) <= 90 {
        (c as int) + 32
    } else {
        c as int
    }
}

/// Two texts are equal once ASCII capitals are read as small letters.
pub open spec fn eq_ignore_ascii_case(a: Seq<char>, b: Seq<char>) -> bool {
    a.len() == b.len() && forall|i: int| 0 <= i < a.len() ==> ascii_lower(#[trigger] a[i])
        == ascii_lower(b[i])
}

fn lower_code(c: char) -> (r: u32)
    ensures
        r == ascii_lower(c),
{
    let u = c as u32;
    if 65 <= u && u <= 90 {
        u + 32
    } else {
        u
    }
}

/// Each ASCII capital matches its small letter, ignoring ASCII case: for
/// `u` in 'A'..='Z', the letter as far past 'a' as `u` is past 'A'.
pub proof fn law_capitals_match_small_letters(u: char, l: char)
    requires
        'A' <= u <= 'Z',
        (l as int) - ('a' as int) == (u as int) - ('A' as int),
    ensures
        eq_ignore_ascii_case(seq![u], seq![l]),
        eq_ignore_ascii_case(seq![l], seq![u]),
{
    assert(seq![u][0] == u);
    assert(seq![l][0] == l);
}

/// Characters that are no ASCII capitals match, ignoring ASCII case, only
/// themselves: case folding changes nothing else.
pub proof fn law_other_chars_match_only_themselves(x: char, y: char)
    requires
        !('A' <= x <= 'Z'),
        !('A' <= y <= 'Z'),
    ensures
        eq_ignore_ascii_case(seq![x], seq![y]) <==> x == y,
{
    assert(seq![x][0] == x);
    assert(seq![y][0] == y);
}

/// Texts match, ignoring ASCII case, exactly when they have the same length
/// and match character by character.
pub proof fn law_match_is_char_by_char(a: Seq<char>, b: Seq<char>)
    ensures
        eq_ignore_ascii_case(a, b) <==> a.len() == b.len() && forall|i: int|
            0 <= i < a.len() ==> eq_ignore_ascii_case(seq![a[i]], seq![#[trigger] b[i]]),
{
    if a.len() == b.len() {
        assert forall|i: int| 0 <= i < a.len() implies (eq_ignore_ascii_case(
            seq![a[i]],
            seq![#[trigger] b[i]],
        ) <==> ascii_lower(a[i]) == ascii_lower(b[i])) by {
            assert(seq![a[i]][0] == a[i]);
            assert(seq![b[i]][0] == b[i]);
        }
    }
}

/// Compares two texts, reading ASCII capitals as small letters.
pub fn str_eq_ignore_ascii_case(a: &str, b: &str) -> (r: bool)
    ensures
        r == eq_ignore_ascii_case(a@, b@),
{
    let la = a.unicode_len();
    let lb = b.unicode_len();
    if la != lb {
        return false;
    }
    let mut i: usize = 0;
    while i < la
        invariant
            la == a@.len(),
            lb == b@.len(),
            la == lb,
            i <= la,
            forall|j: int| 0 <= j < i ==> ascii_lower(#[trigger] a@[j]) == ascii_lower(b@[j]),
        decreases la - i,
    {
        if lower_code(a.get_char(i)) != lower_code(b.get_char(i)) {
            return false;
        }
        i = i + 1;
    }
    true
}

/// Whether a file extension is one of `extensions`, ignoring ASCII case.
pub fn matches_extension(ext: &str, extensions: &[&str]) -> (r: bool)
    ensures
        r == exists|i: int| 0 <= i < extensions@.len() && eq_ignore_ascii_case(ext@, #[trigger] extensions@[i]@),
{
    let n = extensions.len();
    let mut i: usize = 0;
    while i < n
        invariant
            n == extensions@.len(),
            i <= n,
            forall|j: int| 0 <= j < i ==> !eq_ignore_ascii_case(ext@, #[trigger] extensions@[j]@),
        decreases n - i,
    {
        if str_eq_ignore_ascii_case(ext, extensions[i]) {
            return true;
        }
        i = i + 1;
    }
    false
}

/// What the walk of a directory does with one of its entries.
pub enum WalkStep {
    /// Walk the directory below this entry too.
    Descend,
    /// Take this file as an input.
    Keep,
    /// Pass this entry by.
    Skip,
}

/// Decides on one directory entry: a directory is walked, a file whose
/// extension (when it has one in UTF-8) is one of `extensions` is kept, and
/// anything else is passed by.
pub fn walk_step(is_dir: bool, is_file: bool, ext: Option<&str>, extensions: &[&str]) -> (r:
    WalkStep)
    ensures
        r is Descend <==> is_dir,
        r is Keep <==> !is_dir && is_file && (ext matches Some(e) && exists|i: int|
            0 <= i < extensions@.len() && eq_ignore_ascii_case(e@, #[trigger] extensions@[i]@)),
{
    if is_dir {
        return WalkStep::Descend;
    }
    if is_file {
        if let Some(e) = ext {
            if matches_extension(e, extensions) {
                return WalkStep::Keep;
            }
        }
    }
    WalkStep::Skip
}

/// The extensions of `.gui` inputs.
pub fn gui_extensions() -> (r: Vec<&'static str>)
    ensures
        r@.len() == 1,
        r@[0]@ == "gui"@,
{
    vec!["gui"]
}

/// The extensions of `scan` and `compare` inputs.
pub fn scan_extensions() -> (r: Vec<&'static str>)
    ensures
        r@.len() == 4,
        r@[0]@ == "html"@,
        r@[1]@ == "htm"@,
        r@[2]@ == "yaml"@,
        r@[3]@ == "yml"@,
{
    vec!["html", "htm", "yaml", "yml"]
}

// ---- settling the inputs ----
/// The paths in the order that `std::path::Path` orders them (component by component).
pub uninterp spec fn path_sorted(paths: Seq<Seq<char>>) -> Seq<Seq<char>>;

/// The paths with each run of consecutive paths that `std::path::Path` takes
/// as equal cut to its first.
pub uninterp spec fn path_deduped(paths: Seq<Seq<char>>) -> Seq<Seq<char>>;

/// Sorts paths as `std::path::PathBuf` values: calls `<[PathBuf]>::sort`.
/// Claimed: the result is named by `path_sorted` and is a rearrangement of the input.
#[verifier::external_body]
fn sort_paths(paths: Vec<String>) -> (r: Vec<String>)
    ensures
        texts(r@) == path_sorted(texts(paths@)),
        texts(r@).to_multiset() == texts(paths@).to_multiset(),
{
    let mut p: Vec<std::path::PathBuf> = paths.into_iter().map(std::path::PathBuf::from).collect();
    p.sort();
    p.into_iter().map(|x| x.to_string_lossy().into_owned()).collect()
}

/// Drops repeated paths: calls `Vec::<PathBuf>::dedup`.
/// Claimed: the result is named by `path_deduped`, holds only input paths, is
/// no longer than the input, and is empty only when the input is.
#[verifier::external_body]
fn dedup_paths(paths: Vec<String>) -> (r: Vec<String>)
    ensures
        texts(r@) == path_deduped(texts(paths@)),
        r@.len() <= paths@.len(),
        r@.len() == 0 <==> paths@.len() == 0,
        forall|i: int| 0 <= i < r@.len() ==> texts(paths@).contains(#[trigger] texts(r@)[i]),
{
    let mut p: Vec<std::path::PathBuf> = paths.into_iter().map(std::path::PathBuf::from).collect();
    p.dedup();
    p.into_iter().map(|x| x.to_string_lossy().into_owned()).collect()
}

/// The input files, settled: the expanded inputs sorted and without repeats.
pub open spec fn settled(expanded: Seq<Seq<char>>) -> Seq<Seq<char>> {
    path_deduped(path_sorted(expanded))
}

/// Settles the expanded inputs; with none at all, fails with `empty_message`.
pub fn resolve_paths_by_extension(expanded: Vec<String>, empty_message: &str) -> (r: Result<
    Vec<String>,
    String,
>)
    ensures
        r is Err <==> expanded@.len() == 0,
        r matches Err(e) ==> e@ == empty_message@,
        r matches Ok(v) ==> texts(v@) == settled(texts(expanded@)),
        r matches Ok(v) ==> 1 <= v@.len() <= expanded@.len(),
        r matches Ok(v) ==> forall|i: int|
            0 <= i < v@.len() ==> texts(expanded@).contains(#[trigger] texts(v@)[i]),
{
    let ghost input = texts(expanded@);
    let sorted = sort_paths(expanded);
    proof {
        broadcast use vstd::seq_lib::group_to_multiset_ensures;

        assert(texts(sorted@).to_multiset().len() == texts(sorted@).len());
        assert(input.to_multiset().len() == input.len());
    }
    let resolved = dedup_paths(sorted);
    proof {
        broadcast use vstd::seq_lib::group_to_multiset_ensures;

        assert forall|i: int| 0 <= i < resolved@.len() implies input.contains(
            #[trigger] texts(resolved@)[i],
        ) by {
            let x = texts(resolved@)[i];
            assert(texts(sorted@).contains(x));
            assert(texts(sorted@).to_multiset().count(x) > 0);
            assert(input.to_multiset().count(x) > 0);
        }
    }
    if resolved.len() == 0 {
        return Err(String::from_str(empty_message));
    }
    Ok(resolved)
}

/// Settles the `.gui` inputs.
pub fn resolve_input_paths(expanded: Vec<String>) -> (r: Result<Vec<String>, String>)
    ensures
        r is Err <==> expanded@.len() == 0,
        r matches Err(e) ==> e@ == "no .gui files found under current directory"@,
        r matches Ok(v) ==> texts(v@) == settled(texts(expanded@)),
        r matches Ok(v) ==> 1 <= v@.len() <= expanded@.len(),
        r matches Ok(v) ==> forall|i: int|
            0 <= i < v@.len() ==> texts(expanded@).contains(#[trigger] texts(v@)[i]),
{
    resolve_paths_by_extension(expanded, "no .gui files found under current directory")
}

/// Settles the `scan` inputs.
pub fn resolve_scan_input_paths(expanded: Vec<String>) -> (r: Result<Vec<String>, String>)
    ensures
        r is Err <==> expanded@.len() == 0,
        r matches Err(e) ==> e@ == "scan requires at least one html or yaml file"@,
        r matches Ok(v) ==> texts(v@) == settled(texts(expanded@)),
        r matches Ok(v) ==> 1 <= v@.len() <= expanded@.len(),
        r matches Ok(v) ==> forall|i: int|
            0 <= i < v@.len() ==> texts(expanded@).contains(#[trigger] texts(v@)[i]),
{
    resolve_paths_by_extension(expanded, "scan requires at least one html or yaml file")
}

/// Settles the `compare` inputs, which must come to exactly two files.
pub fn resolve_compare_input_paths(expanded: Vec<String>) -> (r: Result<Vec<String>, String>)
    ensures
        r is Ok <==> expanded@.len() > 0 && settled(texts(expanded@)).len() == 2,
        expanded@.len() < 2 ==> r is Err,
        r matches Err(e) ==> e@ == "compare requires exactly two html or yaml files"@,
        r matches Ok(v) ==> texts(v@) == settled(texts(expanded@)),
        r matches Ok(v) ==> forall|i: int|
            0 <= i < v@.len() ==> texts(expanded@).contains(#[trigger] texts(v@)[i]),
{
    let resolved = resolve_paths_by_extension(
        expanded,
        "compare requires exactly two html or yaml files",
    )?;
    if resolved.len() != 2 {
        return Err(String::from_str("compare requires exactly two html or yaml files"));
    }
    Ok(resolved)
}

} // verus!
