//! Building the argument list of the history-attribution query, and the
//! glob patterns that discover candidate files in the store.

use vstd::prelude::*;

verus! {

/// Each value preceded by the flag that names it, in order.
pub open spec fn pair_flags(flag: Seq<char>, vals: Seq<Seq<char>>) -> Seq<Seq<char>>
    decreases vals.len(),
{
    if vals.len() == 0 {
        Seq::empty()
    } else {
        pair_flags(flag, vals.drop_last()) + seq![flag, vals.last()]
    }
}

/// The full argument list of one blame query: porcelain output scoped to the
/// first line, the ignored revisions and ignore-files, and the target file
/// after the option terminator.
pub open spec fn spec_blame_args(
    revs: Seq<Seq<char>>,
    files: Seq<Seq<char>>,
    file: Seq<char>,
) -> Seq<Seq<char>> {
    seq!["blame"@, "-pL"@, ",1"@] + pair_flags("--ignore-rev"@, revs) + pair_flags(
        "--ignore-revs-file"@,
        files,
    ) + seq!["--"@, file]
}

/// The character-sequence views of a sequence of strings.
pub open spec fn str_views(s: Seq<String>) -> Seq<Seq<char>> {
    Seq::new(s.len(), |k: int| s[k]@)
}

/// Builds the argument list of one blame query over `file`, excluding the
/// given revisions and revision-list files from attribution.
pub fn blame_args(ignore_rev: &Vec<String>, ignore_revs_file: &Vec<String>, file: &String) -> (r:
    Vec<String>)
    ensures
        str_views(r@) == spec_blame_args(
            str_views(ignore_rev@),
            str_views(ignore_revs_file@),
            file@,
        ),
{
    let ghost revs = str_views(ignore_rev@);
    let ghost files = str_views(ignore_revs_file@);
    let mut r: Vec<String> = Vec::new();
    r.push(String::from_str("blame"));
    r.push(String::from_str("-pL"));
    r.push(String::from_str(",1"));
    proof {
        assert(str_views(r@) =~~= seq!["blame"@, "-pL"@, ",1"@]);
        assert(revs.take(0) =~= Seq::<Seq<char>>::empty());
        assert(str_views(r@) =~~= seq!["blame"@, "-pL"@, ",1"@] + pair_flags(
            "--ignore-rev"@,
            revs.take(0),
        ));
    }
    let mut i: usize = 0;
    while i < ignore_rev.len()
        invariant
            0 <= i <= ignore_rev@.len(),
            revs == str_views(ignore_rev@),
            revs.len() == ignore_rev@.len(),
            str_views(r@) == seq!["blame"@, "-pL"@, ",1"@] + pair_flags(
                "--ignore-rev"@,
                revs.take(i as int),
            ),
        decreases ignore_rev@.len() - i,
    {
        let ghost r0 = r@;
        r.push(String::from_str("--ignore-rev"));
        r.push(ignore_rev[i].clone());
        proof {
            assert(revs.take(i + 1).drop_last() =~= revs.take(i as int));
            assert(revs.take(i + 1).last() == ignore_rev@[i as int]@);
            assert(pair_flags("--ignore-rev"@, revs.take(i + 1)) =~~= pair_flags(
                "--ignore-rev"@,
                revs.take(i as int),
            ) + seq!["--ignore-rev"@, ignore_rev@[i as int]@]);
            assert(str_views(r@) =~~= str_views(r0) + seq![
                "--ignore-rev"@,
                ignore_rev@[i as int]@,
            ]);
            assert(str_views(r@) =~~= seq!["blame"@, "-pL"@, ",1"@] + pair_flags(
                "--ignore-rev"@,
                revs.take(i + 1),
            ));
        }
        i = i + 1;
    }
    proof {
        assert(revs.take(revs.len() as int) =~= revs);
        assert(files.take(0) =~= Seq::<Seq<char>>::empty());
        assert(str_views(r@) =~~= seq!["blame"@, "-pL"@, ",1"@] + pair_flags("--ignore-rev"@, revs)
            + pair_flags("--ignore-revs-file"@, files.take(0)));
    }
    let ghost base = str_views(r@);
    let mut j: usize = 0;
    while j < ignore_revs_file.len()
        invariant
            0 <= j <= ignore_revs_file@.len(),
            files == str_views(ignore_revs_file@),
            files.len() == ignore_revs_file@.len(),
            base == seq!["blame"@, "-pL"@, ",1"@] + pair_flags("--ignore-rev"@, revs),
            str_views(r@) == base + pair_flags("--ignore-revs-file"@, files.take(j as int)),
        decreases ignore_revs_file@.len() - j,
    {
        let ghost r0 = r@;
        r.push(String::from_str("--ignore-revs-file"));
        r.push(ignore_revs_file[j].clone());
        proof {
            assert(files.take(j + 1).drop_last() =~= files.take(j as int));
            assert(files.take(j + 1).last() == ignore_revs_file@[j as int]@);
            assert(pair_flags("--ignore-revs-file"@, files.take(j + 1)) =~~= pair_flags(
                "--ignore-revs-file"@,
                files.take(j as int),
            ) + seq!["--ignore-revs-file"@, ignore_revs_file@[j as int]@]);
            assert(str_views(r@) =~~= str_views(r0) + seq![
                "--ignore-revs-file"@,
                ignore_revs_file@[j as int]@,
            ]);
            assert(str_views(r@) =~~= base + pair_flags("--ignore-revs-file"@, files.take(j + 1)));
        }
        j = j + 1;
    }
    r.push(String::from_str("--"));
    r.push(file.clone());
    proof {
        assert(files.take(files.len() as int) =~= files);
        assert(str_views(r@) =~~= spec_blame_args(revs, files, file@));
    }
    r
}

/// The glob pattern that discovers every secret in the store.
pub fn default_pattern() -> (r: String)
    ensures
        r@ == "**/*.gpg"@,
{
    String::from_str("**/*.gpg")
}

/// The glob pattern for one target: a directory expands to all secrets
/// beneath it, a file name gets the storage suffix appended.
pub fn search_pattern(target: &String, is_dir: bool) -> (r: String)
    ensures
        r@ == if is_dir {
            target@ + "/**/*.gpg"@
        } else {
            target@ + ".gpg"@
        },
{
    let mut r = target.clone();
    if is_dir {
        r.append("/**/*.gpg");
    } else {
        r.append(".gpg");
    }
    r
}

} // verus!
