//! The repository contract: source files stay short, every package
//! manifest states whether it is pure, and site crates hold no host facts.
use vstd::prelude::*;
use crate::text::{chars_of, decimal_text, push_decimal, push_str, string_of};

verus! {

/// The most lines a Rust source file may have.
pub const MAX_SOURCE_LINES: usize = 500;

/// A file of the repository as read for the contract: its displayed path,
/// what kind of file it is, and its text or why it could not be read.
pub struct RepoFile {
    pub path: String,
    pub rust: bool,
    pub manifest: bool,
    pub in_crates: bool,
    pub text: Result<String, String>,
}

/// How many lines `s` has, as `str::lines` counts them: one for each
/// position that starts a line, the first and each after a line feed.
pub open spec fn line_count(s: Seq<char>) -> nat
    decreases s.len(),
{
    if s.len() == 0 {
        0
    } else if s.drop_last().len() == 0 || s.drop_last().last() == '\n' {
        line_count(s.drop_last()) + 1
    } else {
        line_count(s.drop_last())
    }
}

/// `needle` occurs in `s`.
pub open spec fn has_part(s: Seq<char>, needle: Seq<char>) -> bool {
    exists|i: int| 0 <= i && i + needle.len() <= s.len() && #[trigger] s.subrange(i, i + needle.len()) == needle
}

fn lines_in(s: &str) -> (r: usize)
    ensures
        r == line_count(s@),
{
    let cs = chars_of(s);
    let mut n: usize = 0;
    let mut i: usize = 0;
    while i < cs.len()
        invariant
            i <= cs@.len(),
            cs@ == s@,
            n == line_count(cs@.take(i as int)),
            n <= i,
        decreases cs.len() - i,
    {
        proof {
            assert(cs@.take(i + 1).drop_last() =~= cs@.take(i as int));
            assert(cs@.take(i + 1).last() == cs@[i as int]);
            if i > 0 {
                assert(cs@.take(i as int).last() == cs@[i - 1]);
            }
        }
        if i == 0 || cs[i - 1] == '\n' {
            n = n + 1;
        }
        i = i + 1;
    }
    assert(cs@.take(cs@.len() as int) =~= cs@);
    n
}

/// Whether `needle` occurs in `s`.
pub fn contains_text(s: &str, needle: &str) -> (r: bool)
    ensures
        r == has_part(s@, needle@),
{
    let t = chars_of(s);
    let p = chars_of(needle);
    if p.len() > t.len() {
        return false;
    }
    let mut i: usize = 0;
    while i <= t.len() - p.len()
        invariant
            t@ == s@,
            p@ == needle@,
            p@.len() <= t@.len(),
            i <= t@.len() - p@.len() + 1,
            forall|k: int| 0 <= k < i ==> #[trigger] t@.subrange(k, k + p@.len()) != p@,
        decreases t.len() - i,
    {
        let mut j: usize = 0;
        let mut same = true;
        let tl = t.len();
        while j < p.len()
            invariant
                tl == t@.len(),
                t@ == s@,
                p@ == needle@,
                i + p@.len() <= t@.len(),
                j <= p@.len(),
                same == forall|m: int| 0 <= m < j ==> t@[i + m] == p@[m],
            decreases p.len() - j,
        {
            let at = i + j;
            if t[at] != p[j] {
                same = false;
            }
            j = j + 1;
        }
        if same {
            assert(t@.subrange(i as int, i + p@.len()) =~= p@);
            return true;
        }
        proof {
            let m = choose|m: int| 0 <= m < p@.len() && t@[i + m] != p@[m];
            assert(t@.subrange(i as int, i + p@.len())[m] != p@[m]);
        }
        i = i + 1;
    }
    proof {
        assert forall|k: int| 0 <= k && k + p@.len() <= t@.len() implies #[trigger] t@.subrange(k, k + p@.len()) != p@ by {
            assert(k < i);
        }
    }
    false
}

/// A manifest that declares a package other than the task runner says
/// whether it is pure.
pub open spec fn manifest_fits(text: Seq<char>) -> bool {
    has_part(text, "[package]"@) ==> has_part(text, "name = \"xtask\""@) || has_part(text, "sim-pure = true"@)
        || has_part(text, "sim-pure = false"@)
}

/// Text that states a host fact, which no site crate file may hold.
pub open spec fn forbidden_needles() -> Seq<Seq<char>> {
    seq![
        "std::process"@,
        "std::env"@,
        "std::fs"@,
        "std::net"@,
        "target_os"@,
        "cfg!("@,
        "cfg_attr"@,
    ]
}

/// The text of `f` as the host-fact check reads it: empty where it could
/// not be read.
pub open spec fn readable_text(f: RepoFile) -> Seq<char> {
    match f.text {
        Ok(t) => t@,
        Err(_) => seq![],
    }
}

/// The first Rust source of `files` that could not be read or is too
/// long, as its failure says it.
pub open spec fn first_source_failure(files: Seq<RepoFile>) -> Option<Seq<char>>
    decreases files.len(),
{
    if files.len() == 0 {
        None
    } else {
        match first_source_failure(files.drop_last()) {
            Some(m) => Some(m),
            None => if source_fails(files.last()) {
                Some(source_failure(files.last()))
            } else {
                None
            },
        }
    }
}

/// The first manifest of `files` that could not be read or does not say
/// whether its package is pure, as its failure says it.
pub open spec fn first_manifest_failure(files: Seq<RepoFile>) -> Option<Seq<char>>
    decreases files.len(),
{
    if files.len() == 0 {
        None
    } else {
        match first_manifest_failure(files.drop_last()) {
            Some(m) => Some(m),
            None => if manifest_fails(files.last()) {
                Some(manifest_failure(files.last()))
            } else {
                None
            },
        }
    }
}

/// The first of the first `k` forbidden needles that `text` holds.
pub open spec fn first_needle(text: Seq<char>, k: nat) -> Option<Seq<char>>
    decreases k,
{
    if k == 0 {
        None
    } else {
        match first_needle(text, (k - 1) as nat) {
            Some(n) => Some(n),
            None => if has_part(text, forbidden_needles()[k - 1]) {
                Some(forbidden_needles()[k - 1])
            } else {
                None
            },
        }
    }
}

/// The first site crate file of `files` that holds a host fact, and the
/// first such fact, as the failure says it.
pub open spec fn first_needle_failure(files: Seq<RepoFile>) -> Option<Seq<char>>
    decreases files.len(),
{
    if files.len() == 0 {
        None
    } else {
        match first_needle_failure(files.drop_last()) {
            Some(m) => Some(m),
            None => {
                let f = files.last();
                if f.in_crates {
                    match first_needle(readable_text(f), 7) {
                        Some(n) => Some("OS_5: "@ + f.path@ + " contains "@ + n),
                        None => None,
                    }
                } else {
                    None
                }
            },
        }
    }
}

/// The first failure of the contract over `files`: an unreadable or
/// over-long Rust source, else an unreadable manifest or one that does not
/// say whether its package is pure, else a site crate file that holds a
/// host fact. `None` where the contract holds.
pub open spec fn contract_failure(files: Seq<RepoFile>) -> Option<Seq<char>> {
    match first_source_failure(files) {
        Some(m) => Some(m),
        None => match first_manifest_failure(files) {
            Some(m) => Some(m),
            None => first_needle_failure(files),
        },
    }
}

/// `f` is a Rust source that could not be read or is too long.
pub open spec fn source_fails(f: RepoFile) -> bool {
    f.rust && match f.text {
        Ok(t) => line_count(t@) > MAX_SOURCE_LINES,
        Err(_) => true,
    }
}

/// What the failure of the Rust source `f` says.
pub open spec fn source_failure(f: RepoFile) -> Seq<char> {
    match f.text {
        Ok(t) => f.path@ + " has "@ + decimal_text(line_count(t@)) + " lines (limit 500)"@,
        Err(m) => m@,
    }
}

/// `f` is a manifest that could not be read or does not say whether its
/// package is pure.
pub open spec fn manifest_fails(f: RepoFile) -> bool {
    f.manifest && match f.text {
        Ok(t) => !manifest_fits(t@),
        Err(_) => true,
    }
}

/// What the failure of the manifest `f` says.
pub open spec fn manifest_failure(f: RepoFile) -> Seq<char> {
    match f.text {
        Ok(t) => f.path@ + " is missing sim-pure = true"@,
        Err(m) => m@,
    }
}

/// A manifest that declares a package and says it is not pure satisfies
/// the purity rule: a repository whose files are all such manifests, none
/// of them stating a host fact, holds to the contract, so `check_contract`
/// accepts it.
pub proof fn law_declared_impure_manifests_pass(files: Seq<RepoFile>)
    requires
        forall|i: int| 0 <= i < files.len() ==> {
            &&& !(#[trigger] files[i]).rust
            &&& files[i].manifest
            &&& files[i].text matches Ok(t) && has_part(t@, "[package]"@) && has_part(t@, "sim-pure = false"@)
            &&& forall|k: int| 0 <= k < 7 ==> !has_part(readable_text(files[i]), #[trigger] forbidden_needles()[k])
        },
    ensures
        contract_failure(files) is None,
    decreases files.len(),
{
    if files.len() > 0 {
        let rest = files.drop_last();
        assert forall|i: int| 0 <= i < rest.len() implies {
            &&& !(#[trigger] rest[i]).rust
            &&& rest[i].manifest
            &&& rest[i].text matches Ok(t) && has_part(t@, "[package]"@) && has_part(t@, "sim-pure = false"@)
            &&& forall|k: int| 0 <= k < 7 ==> !has_part(readable_text(rest[i]), #[trigger] forbidden_needles()[k])
        } by {
            assert(rest[i] == files[i]);
        }
        law_declared_impure_manifests_pass(rest);
        let f = files.last();
        assert(f == files[files.len() - 1]);
        lemma_no_needle(readable_text(f), 7);
    }
}

/// Where `text` holds none of the first `k` forbidden needles, it holds no
/// first one.
proof fn lemma_no_needle(text: Seq<char>, k: nat)
    requires
        k <= 7,
        forall|j: int| 0 <= j < k ==> !has_part(text, #[trigger] forbidden_needles()[j]),
    ensures
        first_needle(text, k) is None,
    decreases k,
{
    if k > 0 {
        lemma_no_needle(text, (k - 1) as nat);
    }
}

proof fn lemma_source_prefix(files: Seq<RepoFile>, j: int)
    requires
        0 <= j <= files.len(),
        first_source_failure(files.take(j)) is Some,
    ensures
        first_source_failure(files) == first_source_failure(files.take(j)),
    decreases files.len() - j,
{
    if j < files.len() {
        assert(files.take(j + 1).drop_last() =~= files.take(j));
        lemma_source_prefix(files, j + 1);
    } else {
        assert(files.take(j) =~= files);
    }
}

proof fn lemma_manifest_prefix(files: Seq<RepoFile>, j: int)
    requires
        0 <= j <= files.len(),
        first_manifest_failure(files.take(j)) is Some,
    ensures
        first_manifest_failure(files) == first_manifest_failure(files.take(j)),
    decreases files.len() - j,
{
    if j < files.len() {
        assert(files.take(j + 1).drop_last() =~= files.take(j));
        lemma_manifest_prefix(files, j + 1);
    } else {
        assert(files.take(j) =~= files);
    }
}

proof fn lemma_needle_prefix(files: Seq<RepoFile>, j: int)
    requires
        0 <= j <= files.len(),
        first_needle_failure(files.take(j)) is Some,
    ensures
        first_needle_failure(files) == first_needle_failure(files.take(j)),
    decreases files.len() - j,
{
    if j < files.len() {
        assert(files.take(j + 1).drop_last() =~= files.take(j));
        lemma_needle_prefix(files, j + 1);
    } else {
        assert(files.take(j) =~= files);
    }
}

fn first_needle_in(text: &str) -> (r: Option<&'static str>)
    ensures
        match first_needle(text@, 7) {
            Some(n) => r matches Some(x) && x@ == n,
            None => r is None,
        },
{
    let needles: Vec<&'static str> = vec!["std::process", "std::env", "std::fs", "std::net", "target_os", "cfg!(", "cfg_attr"];
    assert(needles@.len() == 7);
    assert forall|k: int| 0 <= k < 7 implies (#[trigger] needles@[k])@ == forbidden_needles()[k] by {}
    let mut k: usize = 0;
    while k < 7
        invariant
            k <= 7,
            needles@.len() == 7,
            forall|m: int| 0 <= m < 7 ==> (#[trigger] needles@[m])@ == forbidden_needles()[m],
            first_needle(text@, k as nat) is None,
        decreases 7 - k,
    {
        if contains_text(text, needles[k]) {
            assert(first_needle(text@, (k + 1) as nat) == Some(forbidden_needles()[k as int]));
            proof {
                lemma_needle_stays(text@, (k + 1) as nat, 7);
            }
            return Some(needles[k]);
        }
        k = k + 1;
    }
    None
}

proof fn lemma_needle_stays(text: Seq<char>, k: nat, to: nat)
    requires
        k <= to,
        first_needle(text, k) is Some,
    ensures
        first_needle(text, to) == first_needle(text, k),
    decreases to - k,
{
    if k < to {
        lemma_needle_stays(text, k, (to - 1) as nat);
    }
}

/// Holds `files` to the repository contract: the first failure, in the
/// order `contract_failure` gives, is reported as what it says.
pub fn check_contract(files: &Vec<RepoFile>) -> (r: Result<(), String>)
    ensures
        match contract_failure(files@) {
            Some(m) => r matches Err(e) && e@ == m,
            None => r is Ok,
        },
{
    let mut i: usize = 0;
    proof {
        assert(files@.take(0) =~= seq![]);
    }
    while i < files.len()
        invariant
            i <= files@.len(),
            first_source_failure(files@.take(i as int)) is None,
        decreases files.len() - i,
    {
        let f = &files[i];
        proof {
            assert(files@.take(i + 1).drop_last() =~= files@.take(i as int));
            assert(files@.take(i + 1).last() == files@[i as int]);
        }
        if f.rust {
            match &f.text {
                Err(m) => {
                    proof {
                        lemma_source_prefix(files@, i + 1);
                    }
                    return Err(m.clone());
                },
                Ok(t) => {
                    let n = lines_in(t.as_str());
                    if n > MAX_SOURCE_LINES {
                        let mut out: Vec<char> = Vec::new();
                        push_str(&mut out, f.path.as_str());
                        push_str(&mut out, " has ");
                        push_decimal(&mut out, n as u64);
                        push_str(&mut out, " lines (limit 500)");
                        proof {
                            lemma_source_prefix(files@, i + 1);
                            assert(out@ =~= source_failure(*f));
                        }
                        return Err(string_of(&out));
                    }
                },
            }
        }
        i = i + 1;
    }
    proof {
        assert(files@.take(files@.len() as int) =~= files@);
    }
    let mut i: usize = 0;
    while i < files.len()
        invariant
            i <= files@.len(),
            first_source_failure(files@) is None,
            first_manifest_failure(files@.take(i as int)) is None,
        decreases files.len() - i,
    {
        let f = &files[i];
        proof {
            assert(files@.take(i + 1).drop_last() =~= files@.take(i as int));
            assert(files@.take(i + 1).last() == files@[i as int]);
        }
        if f.manifest {
            match &f.text {
                Err(m) => {
                    proof {
                        lemma_manifest_prefix(files@, i + 1);
                    }
                    return Err(m.clone());
                },
                Ok(t) => {
                    let x = t.as_str();
                    if contains_text(x, "[package]") && !contains_text(x, "name = \"xtask\"") && !contains_text(
                        x,
                        "sim-pure = true",
                    ) && !contains_text(x, "sim-pure = false") {
                        let mut out: Vec<char> = Vec::new();
                        push_str(&mut out, f.path.as_str());
                        push_str(&mut out, " is missing sim-pure = true");
                        proof {
                            lemma_manifest_prefix(files@, i + 1);
                            assert(out@ =~= manifest_failure(*f));
                        }
                        return Err(string_of(&out));
                    }
                },
            }
        }
        i = i + 1;
    }
    proof {
        assert(files@.take(files@.len() as int) =~= files@);
    }
    let mut i: usize = 0;
    while i < files.len()
        invariant
            i <= files@.len(),
            first_source_failure(files@) is None,
            first_manifest_failure(files@) is None,
            first_needle_failure(files@.take(i as int)) is None,
        decreases files.len() - i,
    {
        let f = &files[i];
        proof {
            assert(files@.take(i + 1).drop_last() =~= files@.take(i as int));
            assert(files@.take(i + 1).last() == files@[i as int]);
        }
        if f.in_crates {
            let text: &str = match &f.text {
                Ok(t) => t.as_str(),
                Err(_) => "",
            };
            proof {
                reveal_strlit("");
                assert(text@ == readable_text(*f));
            }
            match first_needle_in(text) {
                Some(n) => {
                    let mut out: Vec<char> = Vec::new();
                    push_str(&mut out, "OS_5: ");
                    push_str(&mut out, f.path.as_str());
                    push_str(&mut out, " contains ");
                    push_str(&mut out, n);
                    proof {
                        lemma_needle_prefix(files@, i + 1);
                    }
                    return Err(string_of(&out));
                },
                None => {},
            }
        }
        i = i + 1;
    }
    proof {
        assert(files@.take(files@.len() as int) =~= files@);
    }
    Ok(())
}

} // verus!
