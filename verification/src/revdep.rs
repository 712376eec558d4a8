//! Which projects that use this library are tested against it, and how.

use crate::number::{trim, trim_end, trim_start};
use crate::path::{extend, same_bytes};
use vstd::prelude::*;
use vstd::string::StringExecFns;
use vstd::utf8::encode_utf8_decode_utf8;

verus! {

/// A project that is tested against this library.
#[derive(Clone, Copy, Debug)]
pub struct RevDep {
    /// Its name.
    pub name: &'static str,
    /// Where its repository is.
    pub repo: &'static str,
    /// The revision that is tested: a tag or a commit.
    pub rev: &'static str,
    /// The toolchain that is used in place of the one that the project asks for.
    pub toolchain: Option<&'static str>,
}

/// Why projects could not be tested, or failed.
#[derive(Clone, Copy, PartialEq, Eq, Debug, Structural)]
pub enum RevdepError {
    /// There is no project with the name that stands at this position.
    Unknown(usize),
    /// The place where the library is to be broken was not found.
    NotInjected,
    /// The tests passed although the library was broken.
    NotNoticed,
}

/// The projects that are tested.
pub open spec fn known() -> Seq<RevDep> {
    seq![
        RevDep {
            name: "cargo",
            repo: "https://github.com/rust-lang/cargo.git",
            rev: "0.94.0",
            toolchain: None,
        },
        RevDep {
            name: "cargo-vendor-filterer",
            repo: "https://github.com/coreos/cargo-vendor-filterer.git",
            rev: "v0.5.18",
            toolchain: None,
        },
        RevDep {
            name: "crates-io",
            repo: "https://github.com/rust-lang/crates.io.git",
            rev: "e482ed3da791735f37489cb9e6410a3b768d51f1",
            toolchain: Some("stable"),
        },
    ]
}

/// Returns the projects that are tested.
pub fn revdeps() -> (r: Vec<RevDep>)
    ensures
        r@ == known(),
{
    let mut r: Vec<RevDep> = Vec::new();
    r.push(
        RevDep {
            name: "cargo",
            repo: "https://github.com/rust-lang/cargo.git",
            rev: "0.94.0",
            toolchain: None,
        },
    );
    r.push(
        RevDep {
            name: "cargo-vendor-filterer",
            repo: "https://github.com/coreos/cargo-vendor-filterer.git",
            rev: "v0.5.18",
            toolchain: None,
        },
    );
    r.push(
        RevDep {
            name: "crates-io",
            repo: "https://github.com/rust-lang/crates.io.git",
            rev: "e482ed3da791735f37489cb9e6410a3b768d51f1",
            toolchain: Some("stable"),
        },
    );
    assert(r@ =~= known());
    r
}

/// Returns whether two texts are equal.
pub fn same_text(a: &str, b: &str) -> (r: bool)
    ensures
        r == (a@ == b@),
{
    proof {
        encode_utf8_decode_utf8(a@);
        encode_utf8_decode_utf8(b@);
    }
    same_bytes(a.as_bytes(), b.as_bytes())
}

/// The first of some projects with the given name.
pub open spec fn named(list: Seq<RevDep>, name: Seq<char>) -> Option<RevDep>
    decreases list.len(),
{
    if list.len() == 0 {
        None
    } else if list[0].name@ == name {
        Some(list[0])
    } else {
        named(list.skip(1), name)
    }
}

/// Finds the first of some projects with the given name.
fn find_named(list: &Vec<RevDep>, name: &str) -> (r: Option<RevDep>)
    ensures
        r == named(list@, name@),
{
    let mut i: usize = 0;
    assert(list@.skip(0) =~= list@);
    while i < list.len()
        invariant
            i <= list@.len(),
            named(list@, name@) == named(list@.skip(i as int), name@),
        decreases list@.len() - i,
    {
        assert(list@.skip(i as int).skip(1) =~= list@.skip(i + 1));
        if same_text(list[i].name, name) {
            return Some(list[i]);
        }
        i = i + 1;
    }
    None
}

/// The projects with the given names, up to the first name that no project has.
pub open spec fn resolved_targets(targets: Seq<String>, i: int) -> Result<Seq<RevDep>, RevdepError>
    decreases targets.len() - i,
{
    if i >= targets.len() {
        Ok(Seq::empty())
    } else {
        match named(known(), targets[i]@) {
            None => Err(RevdepError::Unknown(i as usize)),
            Some(d) => match resolved_targets(targets, i + 1) {
                Ok(rest) => Ok(seq![d] + rest),
                Err(e) => Err(e),
            },
        }
    }
}

/// Returns the projects with the given names, or all if there are no names.
///
/// Fails at the first name that no project has.
pub fn resolve_targets(targets: &Vec<String>) -> (r: Result<Vec<RevDep>, RevdepError>)
    ensures
        match (if targets@.len() == 0 {
            Ok(known())
        } else {
            resolved_targets(targets@, 0)
        }) {
            Ok(list) => r matches Ok(v) && v@ == list,
            Err(e) => r == Err::<Vec<RevDep>, RevdepError>(e),
        },
{
    let all: Vec<RevDep> = revdeps();
    if targets.len() == 0 {
        return Ok(all);
    }
    let ghost goal = resolved_targets(targets@, 0);
    let mut r: Vec<RevDep> = Vec::new();
    let mut i: usize = 0;
    proof {
        if let Ok(list) = goal {
            assert(r@ + list =~= list);
        }
    }
    while i < targets.len()
        invariant
            i <= targets@.len(),
            all@ == known(),
            match resolved_targets(targets@, i as int) {
                Ok(rest) => goal == Ok::<Seq<RevDep>, RevdepError>(r@ + rest),
                Err(e) => goal == Err::<Seq<RevDep>, RevdepError>(e),
            },
            goal == resolved_targets(targets@, 0),
            targets@.len() > 0,
        decreases targets@.len() - i,
    {
        let ghost done = r@;
        match find_named(&all, targets[i].as_str()) {
            Some(d) => {
                r.push(d);
                proof {
                    if let Ok(rest) = resolved_targets(targets@, i + 1) {
                        assert(done + (seq![d] + rest) =~= r@ + rest);
                    }
                }
            },
            None => {
                return Err(RevdepError::Unknown(i));
            },
        }
        i = i + 1;
    }
    assert(r@ + Seq::<RevDep>::empty() =~= r@);
    Ok(r)
}

/// Returns the setting that makes a project use the library in the given directory.
pub fn patch_config_flag(root: &str) -> (r: String)
    ensures
        r@ == "patch.crates-io.tar.path=\""@ + root@ + "\""@,
{
    let mut r: String = String::new();
    r.append("patch.crates-io.tar.path=\"");
    r.append(root);
    r.append("\"");
    proof {
        assert(r@ =~= "patch.crates-io.tar.path=\""@ + root@ + "\""@);
    }
    r
}

/// How a project is brought to the revision that is tested.
#[derive(Clone, Copy, PartialEq, Eq, Debug, Structural)]
pub enum CloneAction {
    /// It is there already.
    Keep,
    /// It is fetched and checked out anew.
    Fetch,
    /// It is cloned and checked out.
    Clone,
}

/// Finds out how a project is brought to the revision that is tested.
///
/// `current` is the commit that is checked out, and `wanted` the one that the revision stands
/// for, empty if there is none.
pub fn clone_action(is_cloned: bool, current: &str, wanted: &str) -> (r: CloneAction)
    ensures
        r == if !is_cloned {
            CloneAction::Clone
        } else if trim_end(trim_start(current@)) == trim_end(trim_start(wanted@)) && wanted@.len()
            > 0 {
            CloneAction::Keep
        } else {
            CloneAction::Fetch
        },
{
    if !is_cloned {
        return CloneAction::Clone;
    }
    let same: bool = same_text(trim(current), trim(wanted));
    let empty: bool = same_text(wanted, "");
    proof {
        reveal_strlit("");
        if wanted@.len() == 0 {
            assert(wanted@ =~= ""@);
        }
    }
    if same && !empty {
        CloneAction::Keep
    } else {
        CloneAction::Fetch
    }
}

/// The arguments of the `cargo` commands that test a project, one list for each command.
///
/// The first brings the library into the lock file of the project.
pub open spec fn commands_for(name: Seq<char>) -> Option<Seq<Seq<&'static str>>> {
    let update = seq!["update", "-p", "tar"];
    if name == "cargo"@ {
        Some(
            seq![
                update,
                seq!["check", "--workspace"],
                seq![
                    "test",
                    "-p",
                    "cargo",
                    "--test",
                    "testsuite",
                    "--",
                    "package::",
                    "--skip",
                    "cargo_add::",
                    "--skip",
                    "cargo_info::",
                    "--skip",
                    "cargo_package::",
                    "--skip",
                    "cargo_remove::",
                ],
            ],
        )
    } else if name == "cargo-vendor-filterer"@ {
        Some(seq![update, seq!["test", "--", "--skip", "tar_zstd"]])
    } else if name == "crates-io"@ {
        Some(seq![update, seq!["test", "-p", "crates_io_tarball"]])
    } else {
        None
    }
}

/// The lists of arguments as mathematical values.
pub open spec fn lists_of(v: Seq<Vec<&'static str>>) -> Seq<Seq<&'static str>> {
    v.map_values(|l: Vec<&'static str>| l@)
}

/// Returns the arguments of the `cargo` commands that test a project.
///
/// `None` means that there is no way to test a project with that name.
pub fn test_commands(name: &str) -> (r: Option<Vec<Vec<&'static str>>>)
    ensures
        match commands_for(name@) {
            Some(lists) => r matches Some(v) && lists_of(v@) == lists,
            None => r is None,
        },
{
    let update: Vec<&'static str> = vec!["update", "-p", "tar"];
    assert(update@ =~= seq!["update", "-p", "tar"]);
    let mut r: Vec<Vec<&'static str>> = Vec::new();
    r.push(update);
    if same_text(name, "cargo") {
        let check: Vec<&'static str> = vec!["check", "--workspace"];
        assert(check@ =~= seq!["check", "--workspace"]);
        let test: Vec<&'static str> = vec![
            "test",
            "-p",
            "cargo",
            "--test",
            "testsuite",
            "--",
            "package::",
            "--skip",
            "cargo_add::",
            "--skip",
            "cargo_info::",
            "--skip",
            "cargo_package::",
            "--skip",
            "cargo_remove::",
        ];
        let ghost lists = commands_for(name@).unwrap();
        assert(test@ =~= lists[2]);
        r.push(check);
        r.push(test);
        assert(lists_of(r@) =~= lists);
        Some(r)
    } else if same_text(name, "cargo-vendor-filterer") {
        let test: Vec<&'static str> = vec!["test", "--", "--skip", "tar_zstd"];
        let ghost lists = commands_for(name@).unwrap();
        assert(test@ =~= lists[1]);
        r.push(test);
        assert(lists_of(r@) =~= lists);
        Some(r)
    } else if same_text(name, "crates-io") {
        let test: Vec<&'static str> = vec!["test", "-p", "crates_io_tarball"];
        let ghost lists = commands_for(name@).unwrap();
        assert(test@ =~= lists[1]);
        r.push(test);
        assert(lists_of(r@) =~= lists);
        Some(r)
    } else {
        None
    }
}

/// The names of the projects whose tests did not pass.
pub open spec fn failures(results: Seq<(&'static str, bool)>) -> Seq<&'static str>
    decreases results.len(),
{
    if results.len() == 0 {
        Seq::empty()
    } else {
        let before = failures(results.drop_last());
        if results.last().1 {
            before
        } else {
            before.push(results.last().0)
        }
    }
}

/// Returns the names of the projects whose tests did not pass.
///
/// All is well if there are none.
pub fn failed_names(results: &Vec<(&'static str, bool)>) -> (r: Vec<&'static str>)
    ensures
        r@ == failures(results@),
{
    let mut r: Vec<&'static str> = Vec::new();
    let mut i: usize = 0;
    assert(results@.take(0) =~= Seq::empty());
    while i < results.len()
        invariant
            i <= results@.len(),
            r@ == failures(results@.take(i as int)),
        decreases results@.len() - i,
    {
        assert(results@.take(i + 1).drop_last() =~= results@.take(i as int));
        let (name, passed): (&'static str, bool) = results[i];
        if !passed {
            r.push(name);
        }
        i = i + 1;
    }
    assert(results@.take(i as int) =~= results@);
    r
}

/// Text with every occurrence of a pattern replaced, from the start on.
pub open spec fn replaced(s: Seq<u8>, pattern: Seq<u8>, with: Seq<u8>) -> Seq<u8>
    decreases s.len(),
{
    if s.len() == 0 || s.len() < pattern.len() || pattern.len() == 0 {
        s
    } else if s.take(pattern.len() as int) == pattern {
        with + replaced(s.skip(pattern.len() as int), pattern, with)
    } else {
        seq![s[0]] + replaced(s.skip(1), pattern, with)
    }
}

/// Returns whether a pattern stands in a text at a position.
fn stands_at(s: &[u8], at: usize, pattern: &[u8]) -> (r: bool)
    requires
        at + pattern@.len() <= s@.len(),
    ensures
        r == (s@.skip(at as int).take(pattern@.len() as int) == pattern@),
{
    let ghost there = s@.skip(at as int).take(pattern@.len() as int);
    let len: usize = s.len();
    let mut i: usize = 0;
    while i < pattern.len()
        invariant
            i <= pattern@.len(),
            len == s@.len(),
            at + pattern@.len() <= s@.len(),
            there == s@.skip(at as int).take(pattern@.len() as int),
            forall|k: int| 0 <= k < i ==> there[k] == pattern@[k],
        decreases pattern@.len() - i,
    {
        if s[at + i] != pattern[i] {
            assert(there[i as int] != pattern@[i as int]);
            return false;
        }
        i = i + 1;
    }
    assert(there =~= pattern@);
    true
}

/// Replaces every occurrence of a pattern, from the start on.
pub fn replace(s: &[u8], pattern: &[u8], with: &[u8]) -> (r: Vec<u8>)
    requires
        pattern@.len() > 0,
    ensures
        r@ == replaced(s@, pattern@, with@),
{
    let ghost goal = replaced(s@, pattern@, with@);
    let mut r: Vec<u8> = Vec::new();
    let mut i: usize = 0;
    assert(s@.skip(0) =~= s@);
    assert(r@ + goal =~= goal);
    while i < s.len()
        invariant
            i <= s@.len(),
            pattern@.len() > 0,
            goal == replaced(s@, pattern@, with@),
            r@ + replaced(s@.skip(i as int), pattern@, with@) == goal,
        decreases s@.len() - i,
    {
        let ghost rest = s@.skip(i as int);
        let ghost done = r@;
        if s.len() - i < pattern.len() {
            let tail: &[u8] = vstd::slice::slice_subrange(s, i, s.len());
            assert(tail@ =~= rest);
            extend(&mut r, tail);
            return r;
        }
        if stands_at(s, i, pattern) {
            extend(&mut r, with);
            let ghost more = replaced(rest.skip(pattern@.len() as int), pattern@, with@);
            assert(rest.skip(pattern@.len() as int) =~= s@.skip(i + pattern@.len()));
            assert(done + (with@ + more) =~= r@ + more);
            i = i + pattern.len();
        } else {
            r.push(s[i]);
            let ghost more = replaced(rest.skip(1), pattern@, with@);
            assert(rest.skip(1) =~= s@.skip(i + 1));
            assert(done + (seq![rest[0]] + more) =~= r@ + more);
            i = i + 1;
        }
    }
    assert(s@.skip(i as int) =~= Seq::empty());
    assert(r@ + Seq::<u8>::empty() =~= r@);
    r
}

/// Breaks a text wherever a pattern stands in it.
///
/// Fails if that changes nothing.
pub fn inject(original: &[u8], pattern: &[u8], with: &[u8]) -> (r: Result<Vec<u8>, RevdepError>)
    requires
        pattern@.len() > 0,
    ensures
        if replaced(original@, pattern@, with@) == original@ {
            r == Err::<Vec<u8>, RevdepError>(RevdepError::NotInjected)
        } else {
            r matches Ok(broken) && broken@ == replaced(original@, pattern@, with@)
        },
{
    let broken: Vec<u8> = replace(original, pattern, with);
    if same_bytes(broken.as_slice(), original) {
        Err(RevdepError::NotInjected)
    } else {
        Ok(broken)
    }
}

/// Says whether the self-test passed: the tests of a project must not pass while the library
/// is broken.
pub fn self_test_verdict(passed: bool) -> (r: Result<(), RevdepError>)
    ensures
        r == if passed {
            Err(RevdepError::NotNoticed)
        } else {
            Ok(())
        },
{
    if passed {
        Err(RevdepError::NotNoticed)
    } else {
        Ok(())
    }
}

} // verus!
