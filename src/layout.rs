//! Where chunk archives live and how the outcome of a rebuild is decided.
//!
//! Chunk `idx` (counted from 1) is stored as `<idx>.tar.zst` and fetched
//! from `<host>/<idx>.tar.zst`.

use crate::chunks::{assign_all, build_output_chunks, is_desc, total, FileMeta, OutputChunks};
use vstd::prelude::*;
use vstd::string::StringExecFns;

verus! {

/// The character of one decimal digit.
pub open spec fn digit_char(d: nat) -> char {
    if d == 0 {
        '0'
    } else if d == 1 {
        '1'
    } else if d == 2 {
        '2'
    } else if d == 3 {
        '3'
    } else if d == 4 {
        '4'
    } else if d == 5 {
        '5'
    } else if d == 6 {
        '6'
    } else if d == 7 {
        '7'
    } else if d == 8 {
        '8'
    } else {
        '9'
    }
}

/// The decimal notation of `n`, without leading zeros.
pub open spec fn decimal(n: nat) -> Seq<char>
    decreases n,
{
    if n < 10 {
        seq![digit_char(n)]
    } else {
        decimal(n / 10).push(digit_char(n % 10))
    }
}

pub open spec fn archive_suffix() -> Seq<char> {
    seq!['.', 't', 'a', 'r', '.', 'z', 's', 't']
}

/// File name of chunk `idx`.
pub open spec fn archive_name_of(idx: nat) -> Seq<char> {
    decimal(idx) + archive_suffix()
}

/// Address from which chunk `idx` is fetched.
pub open spec fn chunk_url_of(host: Seq<char>, idx: nat) -> Seq<char> {
    host + seq!['/'] + archive_name_of(idx)
}

/// The one-character string of decimal digit `d`.
fn digit_str(d: usize) -> (r: &'static str)
    requires
        d < 10,
    ensures
        r@ == seq![digit_char(d as nat)],
{
    if d == 0 {
        proof {
            reveal_strlit("0");
        }
        "0"
    } else if d == 1 {
        proof {
            reveal_strlit("1");
        }
        "1"
    } else if d == 2 {
        proof {
            reveal_strlit("2");
        }
        "2"
    } else if d == 3 {
        proof {
            reveal_strlit("3");
        }
        "3"
    } else if d == 4 {
        proof {
            reveal_strlit("4");
        }
        "4"
    } else if d == 5 {
        proof {
            reveal_strlit("5");
        }
        "5"
    } else if d == 6 {
        proof {
            reveal_strlit("6");
        }
        "6"
    } else if d == 7 {
        proof {
            reveal_strlit("7");
        }
        "7"
    } else if d == 8 {
        proof {
            reveal_strlit("8");
        }
        "8"
    } else {
        proof {
            reveal_strlit("9");
        }
        "9"
    }
}

/// The decimal notation of `n`.
pub fn decimal_string(n: usize) -> (r: String)
    ensures
        r@ == decimal(n as nat),
    decreases n,
{
    if n < 10 {
        String::from_str(digit_str(n))
    } else {
        let mut s = decimal_string(n / 10);
        s.append(digit_str(n % 10));
        s
    }
}

/// File name of chunk `idx`.
pub fn archive_name(idx: usize) -> (r: String)
    ensures
        r@ == archive_name_of(idx as nat),
{
    let mut s = decimal_string(idx);
    s.append(".tar.zst");
    proof {
        reveal_strlit(".tar.zst");
        assert(s@ =~= archive_name_of(idx as nat));
    }
    s
}

/// Address from which chunk `idx` is fetched from `host`.
pub fn chunk_url(host: &str, idx: usize) -> (r: String)
    ensures
        r@ == chunk_url_of(host@, idx as nat),
{
    let mut s = String::from_str(host);
    s.append("/");
    let name = archive_name(idx);
    s.append(name.as_str());
    proof {
        reveal_strlit("/");
        assert(s@ =~= chunk_url_of(host@, idx as nat));
    }
    s
}

/// The file names of chunks `1..=count`, in order.
pub fn archive_names(count: usize) -> (r: Vec<String>)
    ensures
        r@.len() == count,
        forall|i: int| 0 <= i < count ==> (#[trigger] r@[i])@ == archive_name_of((i + 1) as nat),
{
    let mut names: Vec<String> = Vec::new();
    let mut idx: usize = 0;
    while idx < count
        invariant
            idx <= count,
            names@.len() == idx,
            forall|i: int| 0 <= i < idx ==> (#[trigger] names@[i])@ == archive_name_of((i + 1) as nat),
        decreases count - idx,
    {
        names.push(archive_name(idx + 1));
        idx = idx + 1;
    }
    names
}

/// The addresses of chunks `1..=count` on `host`, in order: every chunk is
/// fetched, whatever happens to the others.
pub fn chunk_urls(host: &str, count: usize) -> (r: Vec<String>)
    ensures
        r@.len() == count,
        forall|i: int|
            0 <= i < count ==> (#[trigger] r@[i])@ == chunk_url_of(host@, (i + 1) as nat),
{
    let mut urls: Vec<String> = Vec::new();
    let mut idx: usize = 0;
    while idx < count
        invariant
            idx <= count,
            urls@.len() == idx,
            forall|i: int|
                0 <= i < idx ==> (#[trigger] urls@[i])@ == chunk_url_of(host@, (i + 1) as nat),
        decreases count - idx,
    {
        urls.push(chunk_url(host, idx + 1));
        idx = idx + 1;
    }
    urls
}

/// The result of a rebuild once every chunk's worker has finished: success
/// when every chunk succeeded, otherwise the error of the lowest-numbered
/// chunk that failed.
pub fn rebuild_outcome<E>(outcomes: Vec<Result<(), E>>) -> (r: Result<(), E>)
    ensures
        r is Ok <==> forall|i: int| 0 <= i < outcomes@.len() ==> (#[trigger] outcomes@[i]) is Ok,
        r is Err ==> exists|i: int|
            0 <= i < outcomes@.len() && #[trigger] outcomes@[i] == r && forall|j: int|
                0 <= j < i ==> (#[trigger] outcomes@[j]) is Ok,
{
    let ghost all = outcomes@;
    let mut rest = outcomes;
    let len = rest.len();
    let mut seen: usize = 0;
    proof {
        assert(len == all.len());
        assert(all.skip(0) =~= all);
    }
    while rest.len() > 0
        invariant
            all == outcomes@,
            all.len() <= usize::MAX,
            seen + rest@.len() == all.len(),
            rest@ == all.skip(seen as int),
            forall|j: int| 0 <= j < seen ==> (#[trigger] all[j]) is Ok,
        decreases rest@.len(),
    {
        let first = rest.remove(0);
        proof {
            assert(first == all[seen as int]);
            assert(rest@ =~= all.skip(seen + 1));
        }
        match first {
            Ok(()) => {},
            Err(e) => {
                proof {
                    assert(all[seen as int] == Err::<(), E>(e));
                }
                return Err(e);
            },
        }
        seen = seen + 1;
    }
    Ok(())
}

/// The path of `path` relative to the directory `prefix`, when `path`
/// lies under it.
pub uninterp spec fn relative_to(path: Seq<char>, prefix: Seq<char>) -> Option<Seq<char>>;

/// Relies on `std::path::Path::strip_prefix`: the part of `path` after the
/// components of `prefix`, or an error when `prefix` is not a prefix of
/// `path`; the outcome depends on the two paths alone.
#[verifier::external_body]
fn strip_prefix(path: &str, prefix: &str) -> (r: Option<String>)
    ensures
        r matches Some(s) ==> relative_to(path@, prefix@) == Some(s@),
        r is None ==> relative_to(path@, prefix@) is None,
{
    match std::path::Path::new(path).strip_prefix(prefix) {
        Ok(rel) => rel.to_str().map(str::to_string),
        Err(_) => None,
    }
}

/// One archive to write: its file name, and for each member, in the order
/// they are appended, the path it is read from and the path it is stored
/// under.
pub struct ArchivePlan {
    pub name: String,
    pub members: Vec<String>,
    pub entries: Vec<String>,
}

/// The paths of a sequence of entries.
pub open spec fn paths_of(s: Seq<FileMeta>) -> Seq<Seq<char>> {
    s.map_values(|e: FileMeta| e.path@)
}

/// The paths of a sequence of entries relative to `prefix`.
pub open spec fn relative_paths_of(s: Seq<FileMeta>, prefix: Seq<char>) -> Seq<Seq<char>> {
    s.map_values(|e: FileMeta| relative_to(e.path@, prefix)->0)
}

/// Every entry of the chunks lies under `prefix`.
pub open spec fn all_under(c: Seq<Seq<FileMeta>>, prefix: Seq<char>) -> bool {
    forall|i: int, j: int|
        0 <= i < c.len() && 0 <= j < c[i].len() ==> relative_to(
            (#[trigger] c[i][j]).path@,
            prefix,
        ) is Some
}

/// `plans` writes the chunks `c`, found under `prefix`: chunk `i` goes to
/// archive `i + 1`, with the chunk's members in order, each stored under
/// its path relative to `prefix`.
pub open spec fn describes(plans: Seq<ArchivePlan>, c: Seq<Seq<FileMeta>>, prefix: Seq<char>) -> bool {
    &&& plans.len() == c.len()
    &&& forall|i: int|
        0 <= i < c.len() ==> (#[trigger] plans[i]).name@ == archive_name_of((i + 1) as nat)
            && plans[i].members@.map_values(|p: String| p@) == paths_of(c[i])
            && plans[i].entries@.map_values(|p: String| p@) == relative_paths_of(c[i], prefix)
}

impl OutputChunks {
    /// The archives that hold these chunks, chunk `i` (from 0) as archive
    /// `i + 1`; `None` when some member does not lie under the prefix.
    pub fn archives(&self) -> (r: Option<Vec<ArchivePlan>>)
        ensures
            r is Some <==> all_under(self@, self.prefix@),
            r matches Some(plans) ==> describes(plans@, self@, self.prefix@),
    {
        let mut plans: Vec<ArchivePlan> = Vec::new();
        let mut idx: usize = 0;
        while idx < self.chunks.len()
            invariant
                idx <= self@.len(),
                self@.len() == self.chunks@.len(),
                plans@.len() == idx,
                forall|i: int, j: int|
                    0 <= i < idx && 0 <= j < self@[i].len() ==> relative_to(
                        (#[trigger] self@[i][j]).path@,
                        self.prefix@,
                    ) is Some,
                forall|i: int|
                    0 <= i < idx ==> (#[trigger] plans@[i]).name@ == archive_name_of((i + 1) as nat)
                        && plans@[i].members@.map_values(|p: String| p@) == paths_of(self@[i])
                        && plans@[i].entries@.map_values(|p: String| p@) == relative_paths_of(
                        self@[i],
                        self.prefix@,
                    ),
            decreases self@.len() - idx,
        {
            let chunk = &self.chunks[idx].0;
            let mut members: Vec<String> = Vec::new();
            let mut entries: Vec<String> = Vec::new();
            let mut j: usize = 0;
            while j < chunk.len()
                invariant
                    j <= chunk@.len(),
                    idx < self@.len(),
                    chunk@ == self@[idx as int],
                    members@.len() == j,
                    entries@.len() == j,
                    forall|k: int| 0 <= k < j ==> (#[trigger] members@[k])@ == chunk@[k].path@,
                    forall|k: int|
                        0 <= k < j ==> relative_to(chunk@[k].path@, self.prefix@) == Some(
                            (#[trigger] entries@[k])@,
                        ),
                decreases chunk@.len() - j,
            {
                match strip_prefix(chunk[j].path.as_str(), self.prefix.as_str()) {
                    Some(rel) => entries.push(rel),
                    None => {
                        proof {
                            assert(relative_to(self@[idx as int][j as int].path@, self.prefix@) is None);
                            assert(!all_under(self@, self.prefix@));
                        }
                        return None;
                    },
                }
                members.push(chunk[j].path.clone());
                j = j + 1;
            }
            proof {
                assert(members@.map_values(|p: String| p@) =~= paths_of(self@[idx as int]));
                assert(entries@.map_values(|p: String| p@) =~= relative_paths_of(
                    self@[idx as int],
                    self.prefix@,
                ));
                assert forall|k: int| 0 <= k < self@[idx as int].len() implies relative_to(
                    (#[trigger] self@[idx as int][k]).path@,
                    self.prefix@,
                ) is Some by {
                    assert(relative_to(chunk@[k].path@, self.prefix@) == Some(entries@[k]@));
                }
            }
            plans.push(ArchivePlan { name: archive_name(idx + 1), members, entries });
            idx = idx + 1;
        }
        Some(plans)
    }
}

/// The archives of a split of `inventory`, found under `prefix`, into
/// `count` chunks: entries are taken largest first, each goes to the
/// least-loaded chunk, and chunk `i` is written as archive `i + 1`, each
/// member stored under its path relative to `prefix`. `None` when some
/// entry does not lie under `prefix`.
pub fn split(prefix: String, inventory: Vec<FileMeta>, count: usize) -> (r: Option<
    Vec<ArchivePlan>,
>)
    requires
        count >= 1,
        total(inventory@) <= u64::MAX,
    ensures
        exists|order: Seq<FileMeta>|
            #![trigger assign_all(order, count as nat)]
            order.to_multiset() =~= inventory@.to_multiset() && is_desc(order) && total(order) == total(
                inventory@,
            ) && (r is Some
                <==> all_under(assign_all(order, count as nat), prefix@)) && (r matches Some(plans)
                ==> describes(plans@, assign_all(order, count as nat), prefix@)),
{
    let chunks = build_output_chunks(prefix, inventory, count);
    chunks.archives()
}

/// Distinct chunks are stored under distinct file names, so no archive of
/// a split overwrites another.
pub proof fn lemma_archive_names_distinct(a: nat, b: nat)
    requires
        a != b,
    ensures
        archive_name_of(a) != archive_name_of(b),
{
    lemma_decimal_injective(a, b);
    if archive_name_of(a) == archive_name_of(b) {
        assert(archive_name_of(a).len() == archive_name_of(b).len());
        assert(decimal(a).len() == decimal(b).len());
        assert(decimal(a) =~= archive_name_of(a).take(decimal(a).len() as int));
        assert(decimal(b) =~= archive_name_of(b).take(decimal(b).len() as int));
    }
}

/// The address of chunk `idx` names the file that the split stored it in.
pub proof fn lemma_url_names_archive(host: Seq<char>, idx: nat)
    ensures
        chunk_url_of(host, idx).len() == host.len() + 1 + archive_name_of(idx).len(),
        chunk_url_of(host, idx).skip(host.len() + 1int) == archive_name_of(idx),
        chunk_url_of(host, idx)[host.len() as int] == '/',
{
    assert(chunk_url_of(host, idx).skip(host.len() + 1int) =~= archive_name_of(idx));
}

pub proof fn lemma_digit_char_injective(a: nat, b: nat)
    requires
        a < 10,
        b < 10,
        a != b,
    ensures
        digit_char(a) != digit_char(b),
{
}

pub proof fn lemma_decimal_injective(a: nat, b: nat)
    requires
        a != b,
    ensures
        decimal(a) != decimal(b),
    decreases a + b,
{
    lemma_decimal_len(a);
    lemma_decimal_len(b);
    if decimal(a) == decimal(b) {
        if a < 10 && b < 10 {
            lemma_digit_char_injective(a, b);
            assert(decimal(a)[0] == decimal(b)[0]);
        } else if a < 10 {
            lemma_decimal_len(b / 10);
            assert(decimal(b).len() >= 2);
        } else if b < 10 {
            lemma_decimal_len(a / 10);
            assert(decimal(a).len() >= 2);
        } else {
            assert(decimal(a).drop_last() =~= decimal(a / 10));
            assert(decimal(b).drop_last() =~= decimal(b / 10));
            assert(decimal(a).last() == digit_char(a % 10));
            assert(decimal(b).last() == digit_char(b % 10));
            if a / 10 != b / 10 {
                lemma_decimal_injective(a / 10, b / 10);
            } else {
                assert(a % 10 != b % 10);
                lemma_digit_char_injective(a % 10, b % 10);
            }
        }
    }
}

pub proof fn lemma_decimal_len(n: nat)
    ensures
        decimal(n).len() >= 1,
    decreases n,
{
    if n >= 10 {
        lemma_decimal_len(n / 10);
    }
}

} // verus!
