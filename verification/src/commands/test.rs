//! `calisto test`: which files are tests, and how their results are reported.
use vstd::prelude::*;
use crate::appconfig;
use crate::appconfig::{app_daemon, app_test_runtime_dir, AppConfig};
use crate::commands::run;
use crate::number;
use crate::number::{decimal_of, decimal_of_wide, signed_decimal_of};
use crate::path;
use crate::path::{file_name, is_under, join_path, relate_paths, Rel};
use crate::protocol::request;
use crate::runtime;
use crate::runtime::daemon_dir_for;
use crate::text;
use crate::text::{chars_of, ends_with, str_eq};

verus! {

/// A framework for tests.
#[derive(Clone, Copy, PartialEq, Eq, Structural)]
pub enum TestFramework {
    Minitest,
    Rspec,
}

impl TestFramework {
    /// The directory of the tests.
    pub open spec fn dir_name(self) -> Seq<char> {
        match self {
            TestFramework::Minitest => "test"@,
            TestFramework::Rspec => "spec"@,
        }
    }

    /// How the name of a test file ends.
    pub open spec fn ending(self) -> Seq<char> {
        match self {
            TestFramework::Minitest => "_test.rb"@,
            TestFramework::Rspec => "_spec.rb"@,
        }
    }

    /// The name of the framework.
    pub open spec fn title(self) -> Seq<char> {
        match self {
            TestFramework::Minitest => "minitest"@,
            TestFramework::Rspec => "rspec"@,
        }
    }

    /// The directory of the tests.
    pub fn dir(self) -> (r: &'static str)
        ensures
            r@ == self.dir_name(),
    {
        match self {
            TestFramework::Minitest => "test",
            TestFramework::Rspec => "spec",
        }
    }

    /// How the name of a test file ends.
    pub fn suffix(self) -> (r: &'static str)
        ensures
            r@ == self.ending(),
    {
        match self {
            TestFramework::Minitest => "_test.rb",
            TestFramework::Rspec => "_spec.rb",
        }
    }

    /// The name of the framework.
    pub fn name(self) -> (r: &'static str)
        ensures
            r@ == self.title(),
    {
        match self {
            TestFramework::Minitest => "minitest",
            TestFramework::Rspec => "rspec",
        }
    }
}

/// The framework of a project: `rspec` where there is a file `.rspec` or
/// where there are files of `rspec`, otherwise `minitest`.
pub fn detect_framework(has_dot_rspec: bool, spec_files: &Vec<String>) -> (r: TestFramework)
    ensures
        r == (if has_dot_rspec || spec_files@.len() > 0 {
            TestFramework::Rspec
        } else {
            TestFramework::Minitest
        }),
{
    if has_dot_rspec || spec_files.len() > 0 {
        TestFramework::Rspec
    } else {
        TestFramework::Minitest
    }
}

/// Whether a path is that of a wanted file: its name ends with the suffix.
pub open spec fn is_wanted(p: Seq<char>, suffix: Seq<char>) -> bool {
    path::file_name_of(p) matches Some(name) && text::has_suffix(name, suffix)
}

/// Whether a path is that of a wanted file.
pub fn wanted_file(p: &str, suffix: &str) -> (r: bool)
    ensures
        r == is_wanted(p@, suffix@),
{
    match file_name(p) {
        Some(name) => {
            let name = chars_of(name.as_str());
            ends_with(name.as_slice(), suffix)
        },
        None => false,
    }
}

/// What the arguments of the command say.
pub struct TestArgs {
    pub watch: bool,
    pub filters: Vec<String>,
}

/// Whether an argument is the flag that watches the files.
pub open spec fn is_watch(a: Seq<char>) -> bool {
    a == "--watch"@ || a == "-w"@
}

/// The first argument that looks like a flag and is none.
pub open spec fn first_unknown(args: Seq<Seq<char>>) -> Option<Seq<char>>
    decreases args.len(),
{
    if args.len() == 0 {
        None
    } else if !is_watch(args[0]) && args[0].len() > 0 && args[0][0] == '-' {
        Some(args[0])
    } else {
        first_unknown(args.skip(1))
    }
}

/// The arguments that are no flags.
pub open spec fn filters_of(args: Seq<Seq<char>>) -> Seq<Seq<char>>
    decreases args.len(),
{
    if args.len() == 0 {
        Seq::empty()
    } else if is_watch(args.last()) {
        filters_of(args.drop_last())
    } else {
        filters_of(args.drop_last()).push(args.last())
    }
}

/// What is said of an unknown flag.
pub open spec fn unknown_flag(a: Seq<char>) -> Seq<char> {
    "calisto: flag desconhecida '"@ + a + "'"@
}

/// Whether one of the arguments asks to watch the files.
pub open spec fn asks_to_watch(args: Seq<Seq<char>>) -> bool {
    exists|i: int| 0 <= i < args.len() && is_watch(#[trigger] args[i])
}

/// Reads the arguments of the command.
pub fn parse_test_args(args: &Vec<String>) -> (r: Result<TestArgs, String>)
    ensures
        match first_unknown(text::views(args@)) {
            Some(a) => r matches Err(e) && e@ == unknown_flag(a),
            None => {
                &&& r matches Ok(t)
                &&& t.watch == asks_to_watch(text::views(args@))
                &&& text::views(t.filters@) == filters_of(text::views(args@))
            },
        },
{
    let ghost all = text::views(args@);
    let mut watch = false;
    let mut filters: Vec<String> = Vec::new();
    let mut i: usize = 0;
    assert(all.skip(0) =~= all);
    assert(text::views(filters@) =~= filters_of(all.take(0)));
    while i < args.len()
        invariant
            i <= args@.len(),
            all == text::views(args@),
            first_unknown(all.skip(i as int)) == first_unknown(all),
            watch == asks_to_watch(all.take(i as int)),
            text::views(filters@) == filters_of(all.take(i as int)),
        decreases args@.len() - i,
    {
        let ghost before = text::views(filters@);
        let ghost upto = all.take(i + 1);
        assert(upto.drop_last() =~= all.take(i as int));
        assert(upto.last() == args@[i as int]@);
        assert(all.skip(i as int)[0] == args@[i as int]@);
        assert(all.skip(i as int).skip(1) =~= all.skip(i + 1));
        assert(asks_to_watch(upto) == (asks_to_watch(all.take(i as int)) || is_watch(upto.last())))
            by {
            if asks_to_watch(upto) {
                let j = choose|j: int| 0 <= j < upto.len() && is_watch(#[trigger] upto[j]);
                if j < i {
                    assert(all.take(i as int)[j] == upto[j]);
                }
            }
            if asks_to_watch(all.take(i as int)) {
                let j = choose|j: int|
                    0 <= j < i && is_watch(#[trigger] all.take(i as int)[j]);
                assert(upto[j] == all.take(i as int)[j]);
            }
            if is_watch(upto.last()) {
                assert(is_watch(upto[i as int]));
            }
        }
        let a = args[i].as_str();
        let c = chars_of(a);
        if str_eq(a, "--watch") || str_eq(a, "-w") {
            watch = true;
        } else if c.len() > 0 && c[0] == '-' {
            let mut m = "calisto: flag desconhecida '".to_string();
            m.append(a);
            m.append("'");
            return Err(m);
        } else {
            filters.push(a.to_string());
            assert(text::views(filters@) =~= before.push(upto.last()));
        }
        i += 1;
    }
    assert(all.take(i as int) =~= all);
    Ok(TestArgs { watch, filters })
}

/// Whether a filter selects a file: the file lies at or below the path of the
/// filter, as it stands or taken from the root of the project.
pub open spec fn selects(filter: Seq<char>, file: Seq<char>, root: Seq<char>) -> bool {
    path::lies_under(file, filter) || path::lies_under(file, path::joined_path(root, filter))
}

/// Whether one of the filters selects a file; without filters every file is
/// selected.
pub open spec fn is_selected(filters: Seq<Seq<char>>, file: Seq<char>, root: Seq<char>) -> bool {
    filters.len() == 0 || exists|j: int|
        0 <= j < filters.len() && selects(#[trigger] filters[j], file, root)
}

/// The found files that are selected.
pub open spec fn selected(found: Seq<Seq<char>>, filters: Seq<Seq<char>>, root: Seq<char>) -> Seq<
    Seq<char>,
>
    decreases found.len(),
{
    if found.len() == 0 {
        Seq::empty()
    } else if is_selected(filters, found.last(), root) {
        selected(found.drop_last(), filters, root).push(found.last())
    } else {
        selected(found.drop_last(), filters, root)
    }
}

/// The filters that are files themselves, as paths from the root of the
/// project.
pub open spec fn named(filters: Seq<Seq<char>>, is_file: Seq<bool>, root: Seq<char>) -> Seq<
    Seq<char>,
>
    decreases filters.len(),
{
    if filters.len() == 0 {
        Seq::empty()
    } else if is_file[filters.len() - 1] {
        named(filters.drop_last(), is_file, root).push(path::joined_path(root, filters.last()))
    } else {
        named(filters.drop_last(), is_file, root)
    }
}

/// Whether a path with these components stands in the list.
#[verifier::opaque]
pub open spec fn has_path(list: Seq<Seq<char>>, key: Seq<path::Part>) -> bool {
    exists|j: int| 0 <= j < list.len() && path::parts(#[trigger] list[j]) == key
}

/// Whether no path before index `i` is equal to the one there.
pub open spec fn is_first(list: Seq<Seq<char>>, i: int) -> bool {
    forall|k: int| 0 <= k < i ==> path::parts(#[trigger] list[k]) != path::parts(list[i])
}

/// Whether the path stands in the list, and is the first of those equal to
/// it.
#[verifier::opaque]
pub open spec fn first_there(list: Seq<Seq<char>>, p: Seq<char>) -> bool {
    exists|i: int| 0 <= i < list.len() && #[trigger] list[i] == p && is_first(list, i)
}

/// Whether the paths stand in their order, and none twice.
pub open spec fn strictly_ordered(r: Seq<Seq<char>>) -> bool {
    forall|i: int, j: int|
        0 <= i < j < r.len() ==> path::parts_before(
            path::parts(#[trigger] r[i]),
            path::parts(#[trigger] r[j]),
        )
}

/// Whether `r` is the list of paths in order, without repetition: of equal
/// paths the first one counts.
pub open spec fn in_order(list: Seq<Seq<char>>, r: Seq<Seq<char>>) -> bool {
    &&& strictly_ordered(r)
    &&& forall|i: int| 0 <= i < list.len() ==> has_path(r, path::parts(#[trigger] list[i]))
    &&& forall|j: int| 0 <= j < r.len() ==> first_there(list, #[trigger] r[j])
}

proof fn path_at(list: Seq<Seq<char>>, key: Seq<path::Part>) -> (j: int)
    requires
        has_path(list, key),
    ensures
        0 <= j < list.len(),
        path::parts(list[j]) == key,
{
    reveal(has_path);
    choose|j: int| 0 <= j < list.len() && path::parts(#[trigger] list[j]) == key
}

proof fn first_at(list: Seq<Seq<char>>, p: Seq<char>) -> (i: int)
    requires
        first_there(list, p),
    ensures
        0 <= i < list.len(),
        list[i] == p,
        is_first(list, i),
{
    reveal(first_there);
    choose|i: int| 0 <= i < list.len() && #[trigger] list[i] == p && is_first(list, i)
}

proof fn lemma_first_more(list: Seq<Seq<char>>, p: Seq<char>, q: Seq<char>)
    requires
        first_there(list, q),
    ensures
        first_there(list.push(p), q),
{
    let i = first_at(list, q);
    let all = list.push(p);
    reveal(first_there);
    assert(all[i] == q);
    assert forall|k: int| 0 <= k < i implies path::parts(#[trigger] all[k]) != path::parts(
        all[i],
    ) by {
        assert(all[k] == list[k]);
    }
}

fn insert_path(list: &mut Vec<String>, p: &str, Ghost(before): Ghost<Seq<Seq<char>>>)
    requires
        in_order(before, text::views(old(list)@)),
    ensures
        in_order(before.push(p@), text::views(final(list)@)),
{
    let ghost r = text::views(list@);
    let ghost key = path::parts(p@);
    let mut i: usize = 0;
    while i < list.len() && relate_paths(list[i].as_str(), p) == Rel::Before
        invariant
            i <= list@.len(),
            r == text::views(list@),
            key == path::parts(p@),
            forall|k: int| 0 <= k < i ==> path::parts_before(path::parts(#[trigger] r[k]), key),
        decreases list@.len() - i,
    {
        assert(r[i as int] == list@[i as int]@);
        i += 1;
    }
    if i < list.len() && relate_paths(list[i].as_str(), p) == Rel::Same {
        proof {
            assert(r[i as int] == list@[i as int]@);
            lemma_in_order_same(before, r, p@, i as int);
        }
        return;
    }
    proof {
        if i < r.len() {
            assert(r[i as int] == list@[i as int]@);
            path::lemma_parts_total(path::parts(r[i as int]), key);
            assert(path::parts_before(key, path::parts(r[i as int])));
        }
        lemma_rest_after(r, key, i as int);
        lemma_in_order_insert(before, r, p@, i as int);
    }
    list.insert(i, p.to_string());
    assert(text::views(list@) =~= r.insert(i as int, p@));
}

proof fn lemma_rest_after(r: Seq<Seq<char>>, key: Seq<path::Part>, at: int)
    requires
        strictly_ordered(r),
        0 <= at <= r.len(),
        at < r.len() ==> path::parts_before(key, path::parts(r[at])),
    ensures
        forall|k: int|
            at <= k < r.len() ==> path::parts_before(key, path::parts(#[trigger] r[k])),
{
    assert forall|k: int| at <= k < r.len() implies path::parts_before(
        key,
        path::parts(#[trigger] r[k]),
    ) by {
        if k > at {
            path::lemma_parts_transitive(key, path::parts(r[at]), path::parts(r[k]));
        }
    }
}

proof fn lemma_in_order_same(list: Seq<Seq<char>>, r: Seq<Seq<char>>, p: Seq<char>, at: int)
    requires
        in_order(list, r),
        0 <= at < r.len(),
        path::parts(r[at]) == path::parts(p),
    ensures
        in_order(list.push(p), r),
{
    let all = list.push(p);
    assert forall|i: int| 0 <= i < all.len() implies has_path(
        r,
        path::parts(#[trigger] all[i]),
    ) by {
        if i < list.len() {
            assert(all[i] == list[i]);
        } else {
            reveal(has_path);
        }
    }
    assert forall|j: int| 0 <= j < r.len() implies first_there(all, #[trigger] r[j]) by {
        lemma_first_more(list, p, r[j]);
    }
}

proof fn lemma_in_order_insert(list: Seq<Seq<char>>, r: Seq<Seq<char>>, p: Seq<char>, at: int)
    requires
        in_order(list, r),
        0 <= at <= r.len(),
        forall|k: int| 0 <= k < at ==> path::parts_before(path::parts(#[trigger] r[k]), path::parts(p)),
        forall|k: int|
            at <= k < r.len() ==> path::parts_before(path::parts(p), path::parts(#[trigger] r[k])),
    ensures
        in_order(list.push(p), r.insert(at, p)),
{
    let all = list.push(p);
    let s = r.insert(at, p);
    let key = path::parts(p);
    assert forall|i: int, j: int| 0 <= i < j < s.len() implies path::parts_before(
        path::parts(#[trigger] s[i]),
        path::parts(#[trigger] s[j]),
    ) by {
        if j < at {
            assert(s[i] == r[i] && s[j] == r[j]);
        } else if j == at {
            assert(s[i] == r[i] && s[j] == p);
        } else if i < at {
            assert(s[i] == r[i] && s[j] == r[j - 1]);
        } else if i == at {
            assert(s[i] == p && s[j] == r[j - 1]);
        } else {
            assert(s[i] == r[i - 1] && s[j] == r[j - 1]);
        }
    }
    assert forall|i: int| 0 <= i < all.len() implies has_path(
        s,
        path::parts(#[trigger] all[i]),
    ) by {
        if i < list.len() {
            assert(all[i] == list[i]);
            let j = path_at(r, path::parts(list[i]));
            let m = if j < at {
                j
            } else {
                j + 1
            };
            assert(s[m] == r[j]);
            reveal(has_path);
        } else {
            assert(s[at] == p);
            reveal(has_path);
        }
    }
    assert forall|j: int| 0 <= j < s.len() implies first_there(all, #[trigger] s[j]) by {
        if j == at {
            let n = list.len() as int;
            assert(all[n] == p && s[j] == p);
            assert forall|k: int| 0 <= k < n implies path::parts(#[trigger] all[k]) != path::parts(
                all[n],
            ) by {
                assert(all[k] == list[k]);
                let m = path_at(r, path::parts(list[k]));
                path::lemma_parts_total(key, key);
            }
            assert(is_first(all, n));
            reveal(first_there);
        } else {
            let m = if j < at {
                j
            } else {
                j - 1
            };
            assert(s[j] == r[m]);
            lemma_first_more(list, p, r[m]);
        }
    }
}

fn any_selects(filters: &Vec<String>, file: &str, root: &str) -> (r: bool)
    ensures
        r == is_selected(text::views(filters@), file@, root@),
{
    let ghost all = text::views(filters@);
    if filters.len() == 0 {
        return true;
    }
    let mut i: usize = 0;
    while i < filters.len()
        invariant
            i <= filters@.len(),
            all == text::views(filters@),
            all.len() > 0,
            forall|j: int| 0 <= j < i ==> !selects(#[trigger] all[j], file@, root@),
        decreases filters@.len() - i,
    {
        assert(all[i as int] == filters@[i as int]@);
        let p = filters[i].as_str();
        if is_under(file, p) || is_under(file, join_path(root, p).as_str()) {
            assert(selects(all[i as int], file@, root@));
            return true;
        }
        i += 1;
    }
    false
}

/// The test files to run: the found files that the filters select, and the
/// filters that are files themselves; in the order of paths, and none twice.
/// Of each filter, `is_file` says whether it is a file.
pub fn select_files(
    found: &Vec<String>,
    filters: &Vec<String>,
    is_file: &Vec<bool>,
    root: &str,
) -> (r: Vec<String>)
    requires
        is_file@.len() == filters@.len(),
    ensures
        in_order(
            selected(text::views(found@), text::views(filters@), root@) + named(
                text::views(filters@),
                is_file@,
                root@,
            ),
            text::views(r@),
        ),
{
    let ghost all = text::views(found@);
    let ghost pats = text::views(filters@);
    let mut r: Vec<String> = Vec::new();
    let ghost mut seen: Seq<Seq<char>> = Seq::empty();
    let mut i: usize = 0;
    while i < found.len()
        invariant
            i <= found@.len(),
            all == text::views(found@),
            pats == text::views(filters@),
            seen == selected(all.take(i as int), pats, root@),
            in_order(seen, text::views(r@)),
        decreases found@.len() - i,
    {
        assert(all.take(i + 1).drop_last() =~= all.take(i as int));
        assert(all.take(i + 1).last() == found@[i as int]@);
        if any_selects(filters, found[i].as_str(), root) {
            insert_path(&mut r, found[i].as_str(), Ghost(seen));
            proof {
                seen = seen.push(found@[i as int]@);
            }
        }
        i += 1;
    }
    assert(all.take(i as int) =~= all);
    let ghost first = seen;
    assert(first + named(pats.take(0), is_file@, root@) =~= first);
    let mut j: usize = 0;
    while j < filters.len()
        invariant
            j <= filters@.len(),
            pats == text::views(filters@),
            is_file@.len() == filters@.len(),
            seen == first + named(pats.take(j as int), is_file@, root@),
            in_order(seen, text::views(r@)),
        decreases filters@.len() - j,
    {
        let ghost upto = pats.take(j + 1);
        assert(upto.drop_last() =~= pats.take(j as int));
        assert(upto.last() == filters@[j as int]@);
        if is_file[j] {
            let p = join_path(root, filters[j].as_str());
            insert_path(&mut r, p.as_str(), Ghost(seen));
            proof {
                seen = seen.push(p@);
                assert(seen =~= first + named(upto, is_file@, root@));
            }
        }
        j += 1;
    }
    assert(pats.take(j as int) =~= pats);
    r
}

/// The arguments that are no flags stay, in their order, and only `--watch` and
/// `-w` are taken out; an argument is refused exactly where it begins with a
/// dash and is neither, and the first such argument is named.
pub proof fn law_test_args(args: Seq<Seq<char>>)
    ensures
        filters_of(args) == args.filter(|a: Seq<char>| a != "--watch"@ && a != "-w"@),
        asks_to_watch(args) <==> args.contains("--watch"@) || args.contains("-w"@),
        first_unknown(args) is None <==> (forall|i: int|
            0 <= i < args.len() ==> {
                let a = #[trigger] args[i];
                a == "--watch"@ || a == "-w"@ || a.len() == 0 || a[0] != '-'
            }),
        first_unknown(args) matches Some(u) ==> exists|i: int|
            {
                &&& 0 <= i < args.len()
                &&& #[trigger] args[i] == u
                &&& u.len() > 0 && u[0] == '-' && u != "--watch"@ && u != "-w"@
                &&& first_unknown(args.take(i)) is None
            },
{
    lemma_filters(args);
    lemma_unknown(args);
    if asks_to_watch(args) {
        let i = choose|i: int| 0 <= i < args.len() && is_watch(#[trigger] args[i]);
        assert(args.contains(args[i]));
    }
    if args.contains("--watch"@) {
        let i = choose|i: int| 0 <= i < args.len() && args[i] == "--watch"@;
        assert(is_watch(args[i]));
    }
    if args.contains("-w"@) {
        let i = choose|i: int| 0 <= i < args.len() && args[i] == "-w"@;
        assert(is_watch(args[i]));
    }
}

proof fn lemma_filters(args: Seq<Seq<char>>)
    ensures
        filters_of(args) == args.filter(|a: Seq<char>| a != "--watch"@ && a != "-w"@),
    decreases args.len(),
{
    reveal(Seq::filter);
    if args.len() > 0 {
        lemma_filters(args.drop_last());
    }
}

proof fn lemma_unknown(args: Seq<Seq<char>>)
    ensures
        first_unknown(args) is None <==> (forall|i: int|
            0 <= i < args.len() ==> {
                let a = #[trigger] args[i];
                a == "--watch"@ || a == "-w"@ || a.len() == 0 || a[0] != '-'
            }),
        first_unknown(args) matches Some(u) ==> exists|i: int|
            {
                &&& 0 <= i < args.len()
                &&& #[trigger] args[i] == u
                &&& u.len() > 0 && u[0] == '-' && u != "--watch"@ && u != "-w"@
                &&& first_unknown(args.take(i)) is None
            },
    decreases args.len(),
{
    if args.len() > 0 {
        let rest = args.skip(1);
        lemma_unknown(rest);
        let a = args[0];
        let fine = a == "--watch"@ || a == "-w"@ || a.len() == 0 || a[0] != '-';
        if fine {
            if first_unknown(rest) is None {
                assert forall|i: int| 0 <= i < args.len() implies {
                    let a = #[trigger] args[i];
                    a == "--watch"@ || a == "-w"@ || a.len() == 0 || a[0] != '-'
                } by {
                    if i > 0 {
                        assert(args[i] == rest[i - 1]);
                    }
                }
            } else {
                let u = first_unknown(rest)->0;
                let i = choose|i: int|
                    {
                        &&& 0 <= i < rest.len()
                        &&& #[trigger] rest[i] == u
                        &&& u.len() > 0 && u[0] == '-' && u != "--watch"@ && u != "-w"@
                        &&& first_unknown(rest.take(i)) is None
                    };
                assert(args[i + 1] == u);
                let upto = args.take(i + 1);
                assert(upto[0] == a);
                assert(upto.skip(1) =~= rest.take(i));
                assert(first_unknown(upto) is None);
            }
        } else {
            assert(args[0] == a);
            assert(args.take(0).len() == 0);
            assert(first_unknown(args.take(0)) is None);
        }
    }
}

/// Without filters every file is run. With filters those are run that lie at or
/// below one of them, from the current directory or from the root of the
/// project, and no others; a filter that is a file itself is run as well.
pub proof fn law_selection(
    found: Seq<Seq<char>>,
    filters: Seq<Seq<char>>,
    is_file: Seq<bool>,
    root: Seq<char>,
    file: Seq<char>,
)
    requires
        is_file.len() == filters.len(),
    ensures
        selected(found, Seq::empty(), root) == found,
        filters.len() > 0 ==> (selected(found, filters, root).contains(file) <==> found.contains(
            file,
        ) && exists|j: int|
            0 <= j < filters.len() && (path::lies_under(file, #[trigger] filters[j])
                || path::lies_under(file, path::joined_path(root, filters[j])))),
        named(filters, is_file, root).contains(file) <==> exists|j: int|
            0 <= j < filters.len() && is_file[j] && file == path::joined_path(
                root,
                #[trigger] filters[j],
            ),
{
    lemma_all_selected(found, root);
    lemma_selected(found, filters, root, file);
    lemma_named(filters, is_file, root, file);
}

proof fn lemma_all_selected(found: Seq<Seq<char>>, root: Seq<char>)
    ensures
        selected(found, Seq::empty(), root) == found,
    decreases found.len(),
{
    if found.len() > 0 {
        lemma_all_selected(found.drop_last(), root);
        assert(found.drop_last().push(found.last()) =~= found);
    } else {
        assert(selected(found, Seq::empty(), root) =~= found);
    }
}

proof fn lemma_selected(
    found: Seq<Seq<char>>,
    filters: Seq<Seq<char>>,
    root: Seq<char>,
    file: Seq<char>,
)
    ensures
        selected(found, filters, root).contains(file) <==> found.contains(file) && is_selected(
            filters,
            file,
            root,
        ),
    decreases found.len(),
{
    if found.len() > 0 {
        let head = found.drop_last();
        lemma_selected(head, filters, root, file);
        let before = selected(head, filters, root);
        let now = selected(found, filters, root);
        if now.contains(file) {
            let i = choose|i: int| 0 <= i < now.len() && now[i] == file;
            if i < before.len() {
                assert(before[i] == file);
                let k = choose|k: int| 0 <= k < head.len() && head[k] == file;
                assert(found[k] == file);
            } else {
                assert(found[found.len() - 1] == file);
            }
        }
        if found.contains(file) && is_selected(filters, file, root) {
            let k = choose|k: int| 0 <= k < found.len() && found[k] == file;
            if k < head.len() {
                assert(head[k] == file);
                let i = choose|i: int| 0 <= i < before.len() && before[i] == file;
                assert(now[i] == file);
            } else {
                assert(now[now.len() - 1] == file);
            }
        }
    }
}

proof fn lemma_named(
    filters: Seq<Seq<char>>,
    is_file: Seq<bool>,
    root: Seq<char>,
    file: Seq<char>,
)
    requires
        is_file.len() >= filters.len(),
    ensures
        named(filters, is_file, root).contains(file) <==> exists|j: int|
            0 <= j < filters.len() && is_file[j] && file == path::joined_path(
                root,
                #[trigger] filters[j],
            ),
    decreases filters.len(),
{
    if filters.len() > 0 {
        let head = filters.drop_last();
        lemma_named(head, is_file, root, file);
        let before = named(head, is_file, root);
        let now = named(filters, is_file, root);
        if now.contains(file) {
            let i = choose|i: int| 0 <= i < now.len() && now[i] == file;
            if i < before.len() {
                assert(before[i] == file);
                let j = choose|j: int|
                    0 <= j < head.len() && is_file[j] && file == path::joined_path(
                        root,
                        #[trigger] head[j],
                    );
                assert(filters[j] == head[j]);
            } else {
                assert(file == path::joined_path(root, filters[filters.len() - 1]));
            }
        }
        if exists|j: int|
            0 <= j < filters.len() && is_file[j] && file == path::joined_path(
                root,
                #[trigger] filters[j],
            ) {
            let j = choose|j: int|
                0 <= j < filters.len() && is_file[j] && file == path::joined_path(
                    root,
                    #[trigger] filters[j],
                );
            if j < head.len() {
                assert(head[j] == filters[j]);
                let i = choose|i: int| 0 <= i < before.len() && before[i] == file;
                assert(now[i] == file);
            } else {
                assert(now[now.len() - 1] == file);
            }
        }
    }
}

/// The list in order is determined: two lists in order are the same.
pub proof fn law_order_is_unique(list: Seq<Seq<char>>, a: Seq<Seq<char>>, b: Seq<Seq<char>>)
    requires
        in_order(list, a),
        in_order(list, b),
    ensures
        a == b,
{
    lemma_prefix_equal(list, a, b, a.len());
    lemma_prefix_equal(list, b, a, b.len());
    assert(a =~= b);
}

proof fn lemma_prefix_equal(list: Seq<Seq<char>>, a: Seq<Seq<char>>, b: Seq<Seq<char>>, n: nat)
    requires
        in_order(list, a),
        in_order(list, b),
        n <= a.len(),
    ensures
        n <= b.len(),
        forall|i: int| 0 <= i < n ==> #[trigger] a[i] == b[i],
    decreases n,
{
    if n > 0 {
        let m = n - 1;
        lemma_prefix_equal(list, a, b, m as nat);
        // The path a[m] stands somewhere in b, and not before m.
        let k = stands_at(list, a, b, m);
        path::lemma_parts_total(path::parts(a[m]), path::parts(a[m]));
        if k < m {
            assert(a[k] == b[k]);
            assert(path::parts_before(path::parts(a[k]), path::parts(a[m])));
        } else if k > m {
            // Then b[m] comes before it, and stands in a, but not before m
            // either.
            let l = stands_at(list, b, a, m);
            path::lemma_parts_total(path::parts(b[m]), path::parts(b[m]));
            assert(path::parts_before(path::parts(b[m]), path::parts(b[k])));
            path::lemma_parts_total(path::parts(b[m]), path::parts(a[m]));
            if l < m {
                assert(a[l] == b[l]);
                assert(path::parts_before(path::parts(b[l]), path::parts(b[m])));
            } else if l > m {
                assert(path::parts_before(path::parts(a[m]), path::parts(a[l])));
            }
        }
        assert forall|i: int| 0 <= i < n implies #[trigger] a[i] == b[i] by {
            if i < m {
                assert(a[i] == b[i]);
            }
        }
    }
}

proof fn stands_at(list: Seq<Seq<char>>, a: Seq<Seq<char>>, b: Seq<Seq<char>>, m: int) -> (k: int)
    requires
        in_order(list, a),
        in_order(list, b),
        0 <= m < a.len(),
    ensures
        0 <= k < b.len(),
        b[k] == a[m],
{
    assert(first_there(list, a[m]));
    let i = first_at(list, a[m]);
    assert(has_path(b, path::parts(list[i])));
    let k = path_at(b, path::parts(list[i]));
    assert(first_there(list, b[k]));
    let i2 = first_at(list, b[k]);
    if i < i2 {
        assert(path::parts(list[i]) != path::parts(list[i2]));
    } else if i2 < i {
        assert(path::parts(list[i2]) != path::parts(list[i]));
    }
    k
}

/// What is said where there is no test.
pub fn no_tests(framework: TestFramework, root: &str) -> (r: String)
    ensures
        r@ == "calisto: nenhum teste "@ + framework.ending() + " encontrado em "@
            + path::joined_path(root@, framework.dir_name()) + " (rode na raiz do projeto)"@,
{
    let mut r = "calisto: nenhum teste ".to_string();
    r.append(framework.suffix());
    r.append(" encontrado em ");
    r.append(join_path(root, framework.dir()).as_str());
    r.append(" (rode na raiz do projeto)");
    r
}

/// The variables of a test: the environment is that of tests, and the
/// directory of the tests is on the load path.
pub fn test_env(framework: TestFramework) -> (r: Vec<(String, String)>)
    ensures
        request::pair_views(r@) == seq![
            ("RAILS_ENV"@, "test"@),
            ("RACK_ENV"@, "test"@),
            ("CALISTO_LOAD_PATH"@, framework.dir_name()),
        ],
{
    let mut r: Vec<(String, String)> = Vec::new();
    r.push(("RAILS_ENV".to_string(), "test".to_string()));
    r.push(("RACK_ENV".to_string(), "test".to_string()));
    r.push(("CALISTO_LOAD_PATH".to_string(), framework.dir().to_string()));
    assert(request::pair_views(r@) =~= seq![
        ("RAILS_ENV"@, "test"@),
        ("RACK_ENV"@, "test"@),
        ("CALISTO_LOAD_PATH"@, framework.dir_name()),
    ]);
    r
}

/// The variables of the daemon in which the tests of an application run: its
/// environment is that of tests from the start.
pub fn test_daemon_env() -> (r: Vec<(String, String)>)
    ensures
        request::pair_views(r@) == seq![("RAILS_ENV"@, "test"@), ("RACK_ENV"@, "test"@)],
{
    let mut r: Vec<(String, String)> = Vec::new();
    r.push(("RAILS_ENV".to_string(), "test".to_string()));
    r.push(("RACK_ENV".to_string(), "test".to_string()));
    assert(request::pair_views(r@) =~= seq![("RAILS_ENV"@, "test"@), ("RACK_ENV"@, "test"@)]);
    r
}

/// The directory of the daemon in which tests run: one of its own for an
/// application that has a daemon, and the general one else.
pub open spec fn testing_dir(
    app: Option<appconfig::Config>,
    ruby: Seq<char>,
    runtime_dir: Seq<char>,
) -> Seq<char> {
    match app {
        Some(c) if c.preload is Some => appconfig::app_dir(
            c,
            "test"@,
            runtime::version_of(ruby),
            runtime_dir,
        ),
        _ => runtime::generic_dir(ruby, runtime_dir),
    }
}

/// The directory of the daemon in which tests run.
pub fn test_daemon_dir(app: &Option<AppConfig>, ruby: &str, runtime_dir: &str) -> (r: String)
    ensures
        r@ == testing_dir(run::app_view(*app), ruby@, runtime_dir@),
{
    match app_daemon(app) {
        Some(a) => app_test_runtime_dir(a, ruby, runtime_dir),
        None => daemon_dir_for(ruby, runtime_dir),
    }
}

/// How many tests run at a time: as many as there are processors, four where
/// that is not known, but not more than there are files, and at least one.
pub fn worker_count(processors: Option<usize>, files: usize) -> (r: usize)
    ensures
        ({
            let p = match processors {
                Some(n) => n as int,
                None => 4,
            };
            let m = if p < files {
                p
            } else {
                files as int
            };
            r == (if m < 1 {
                1
            } else {
                m
            })
        }),
        r >= 1,
        r > 1 ==> r <= files,
        processors matches Some(n) ==> (1 <= n <= files ==> r == n),
        processors matches Some(n) ==> (1 <= files <= n ==> r == files),
{
    let p: usize = match processors {
        Some(n) => n,
        None => 4,
    };
    let m: usize = if p < files {
        p
    } else {
        files
    };
    if m < 1 {
        1
    } else {
        m
    }
}

/// The result of one test file.
pub struct TestResult {
    pub path: String,
    pub code: i32,
    pub ms: u64,
    pub error: String,
}

/// A result, as contracts see it.
#[verifier::ext_equal]
pub struct Outcome {
    pub path: Seq<char>,
    pub code: i32,
    pub ms: u64,
    pub error: Seq<char>,
}

impl View for TestResult {
    type V = Outcome;

    open spec fn view(&self) -> Outcome {
        Outcome { path: self.path@, code: self.code, ms: self.ms, error: self.error@ }
    }
}

/// The results of a list.
pub open spec fn outcomes(list: Seq<TestResult>) -> Seq<Outcome> {
    list.map_values(|t: TestResult| t@)
}

/// The line that reports a result.
pub open spec fn result_line(t: Outcome) -> Seq<char> {
    if t.code == 0 {
        "ok "@ + t.path + " ("@ + number::decimal(t.ms as nat) + "ms)"@
    } else {
        "FAIL "@ + t.path + " ("@ + number::decimal(t.ms as nat) + "ms, exit "@
            + number::signed_decimal(t.code as int) + ")"@ + t.error
    }
}

/// The number of results that are failures.
pub open spec fn failures(list: Seq<Outcome>) -> nat
    decreases list.len(),
{
    if list.len() == 0 {
        0
    } else {
        failures(list.drop_last()) + (if list.last().code == 0 {
            0nat
        } else {
            1nat
        })
    }
}

/// The time of all tests together.
pub open spec fn total_ms(list: Seq<Outcome>) -> nat
    decreases list.len(),
{
    if list.len() == 0 {
        0
    } else {
        total_ms(list.drop_last()) + list.last().ms as nat
    }
}

/// The line at the end of a report.
pub open spec fn summary_line(list: Seq<Outcome>, framework: TestFramework) -> Seq<char> {
    "calisto: "@ + number::decimal(list.len()) + " arquivo(s) de teste, "@ + number::decimal(
        failures(list),
    ) + " falhou(ram) em "@ + number::decimal(total_ms(list)) + "ms (framework: "@
        + framework.title() + ")"@
}

fn result_text(t: &TestResult) -> (r: String)
    ensures
        r@ == result_line(t@),
{
    if t.code == 0 {
        let mut r = "ok ".to_string();
        r.append(t.path.as_str());
        r.append(" (");
        r.append(decimal_of(t.ms).as_str());
        r.append("ms)");
        r
    } else {
        let mut r = "FAIL ".to_string();
        r.append(t.path.as_str());
        r.append(" (");
        r.append(decimal_of(t.ms).as_str());
        r.append("ms, exit ");
        r.append(signed_decimal_of(t.code as i64).as_str());
        r.append(")");
        r.append(t.error.as_str());
        r
    }
}

/// Where a result belongs in a list that is in order: behind every result
/// whose path does not come after its own.
pub open spec fn placed(list: Seq<Outcome>, t: Outcome) -> Seq<Outcome>
    decreases list.len(),
{
    if list.len() > 0 && path::text_before(t.path, list.last().path) {
        placed(list.drop_last(), t).push(list.last())
    } else {
        list.push(t)
    }
}

/// The results in the order of their paths; results of one path keep theirs.
pub open spec fn by_path(list: Seq<Outcome>) -> Seq<Outcome>
    decreases list.len(),
{
    if list.len() == 0 {
        Seq::empty()
    } else {
        placed(by_path(list.drop_last()), list.last())
    }
}

proof fn lemma_placed(list: Seq<Outcome>, t: Outcome)
    requires
        ascending(list),
    ensures
        ascending(placed(list, t)),
        placed(list, t).to_multiset() == list.to_multiset().insert(t),
        placed(list, t).len() == list.len() + 1,
        forall|c: Seq<char>|
            #![trigger path::text_before(c, placed(list, t).last().path)]
            (list.len() > 0 ==> !path::text_before(c, list.last().path)) && !path::text_before(
                c,
                t.path,
            ) ==> !path::text_before(c, placed(list, t).last().path),
    decreases list.len(),
{
    broadcast use vstd::seq_lib::group_to_multiset_ensures;

    if list.len() > 0 && path::text_before(t.path, list.last().path) {
        let head = list.drop_last();
        let last = list.last();
        assert(ascending(head)) by {
            assert forall|i: int, j: int| 0 <= i < j < head.len() implies !path::text_before(
                (#[trigger] head[j]).path,
                (#[trigger] head[i]).path,
            ) by {
                assert(head[i] == list[i] && head[j] == list[j]);
            }
        }
        lemma_placed(head, t);
        let p = placed(head, t);
        let all = p.push(last);
        assert(head.push(last) =~= list);
        assert(ascending(all)) by {
            assert forall|i: int, j: int| 0 <= i < j < all.len() implies !path::text_before(
                (#[trigger] all[j]).path,
                (#[trigger] all[i]).path,
            ) by {
                if j < p.len() {
                    assert(all[i] == p[i] && all[j] == p[j]);
                } else {
                    lemma_none_after(head, t, last.path, list);
                    assert(all[i] == p[i]);
                }
            }
        }
    } else {
        let all = list.push(t);
        assert(ascending(all)) by {
            assert forall|i: int, j: int| 0 <= i < j < all.len() implies !path::text_before(
                (#[trigger] all[j]).path,
                (#[trigger] all[i]).path,
            ) by {
                if j < list.len() {
                    assert(all[i] == list[i] && all[j] == list[j]);
                } else {
                    assert(all[i] == list[i]);
                    lemma_not_before_first(list, t.path, i);
                }
            }
        }
    }
}

/// Whether no result comes before an earlier one.
pub open spec fn ascending(list: Seq<Outcome>) -> bool {
    forall|i: int, j: int|
        0 <= i < j < list.len() ==> !path::text_before(
            (#[trigger] list[j]).path,
            (#[trigger] list[i]).path,
        )
}

proof fn lemma_not_before_first(list: Seq<Outcome>, c: Seq<char>, i: int)
    requires
        ascending(list),
        0 <= i < list.len(),
        !path::text_before(c, list.last().path),
    ensures
        !path::text_before(c, list[i].path),
{
    let last = list[list.len() - 1];
    if i < list.len() - 1 && path::text_before(c, list[i].path) {
        assert(!path::text_before(last.path, list[i].path));
        path::lemma_text_total(list[i].path, last.path);
        path::lemma_text_total(c, last.path);
        if path::text_before(list[i].path, last.path) {
            path::lemma_text_transitive(c, list[i].path, last.path);
        }
    }
}

proof fn lemma_none_after(head: Seq<Outcome>, t: Outcome, c: Seq<char>, list: Seq<Outcome>)
    requires
        ascending(list),
        list.len() > 0,
        head == list.drop_last(),
        c == list.last().path,
        path::text_before(t.path, c),
    ensures
        forall|i: int| 0 <= i < placed(head, t).len() ==> !path::text_before(c, (#[trigger] placed(head, t)[i]).path),
{
    path::lemma_text_total(t.path, c);
    assert forall|i: int| 0 <= i < head.len() implies !path::text_before(
        c,
        (#[trigger] head[i]).path,
    ) by {
        assert(head[i] == list[i]);
        assert(list[list.len() - 1] == list.last());
    }
    lemma_placed_members(head, t, c);
}

proof fn lemma_placed_members(list: Seq<Outcome>, t: Outcome, c: Seq<char>)
    requires
        forall|i: int| 0 <= i < list.len() ==> !path::text_before(c, (#[trigger] list[i]).path),
        !path::text_before(c, t.path),
    ensures
        forall|i: int|
            0 <= i < placed(list, t).len() ==> !path::text_before(
                c,
                (#[trigger] placed(list, t)[i]).path,
            ),
    decreases list.len(),
{
    if list.len() > 0 && path::text_before(t.path, list.last().path) {
        let head = list.drop_last();
        assert forall|i: int| 0 <= i < head.len() implies !path::text_before(
            c,
            (#[trigger] head[i]).path,
        ) by {
            assert(head[i] == list[i]);
        }
        lemma_placed_members(head, t, c);
        let p = placed(head, t);
        assert(list[list.len() - 1] == list.last());
        assert forall|i: int| 0 <= i < placed(list, t).len() implies !path::text_before(
            c,
            (#[trigger] placed(list, t)[i]).path,
        ) by {
            if i < p.len() {
                assert(placed(list, t)[i] == p[i]);
            }
        }
    } else {
        assert forall|i: int| 0 <= i < placed(list, t).len() implies !path::text_before(
            c,
            (#[trigger] placed(list, t)[i]).path,
        ) by {
            if i < list.len() {
                assert(placed(list, t)[i] == list[i]);
            }
        }
    }
}

/// A report holds every result once, in the order of the paths.
pub proof fn law_report_order(list: Seq<Outcome>)
    ensures
        ascending(by_path(list)),
        by_path(list).to_multiset() == list.to_multiset(),
        by_path(list).len() == list.len(),
    decreases list.len(),
{
    broadcast use vstd::seq_lib::group_to_multiset_ensures;

    if list.len() > 0 {
        law_report_order(list.drop_last());
        lemma_placed(by_path(list.drop_last()), list.last());
        assert(list.drop_last().push(list.last()) =~= list);
    } else {
        assert(by_path(list) =~= list);
    }
}

/// Puts the results in the order of their paths.
pub fn sort_results(list: Vec<TestResult>) -> (r: Vec<TestResult>)
    ensures
        outcomes(r@) == by_path(outcomes(list@)),
{
    let ghost all = outcomes(list@);
    let mut r: Vec<TestResult> = Vec::new();
    let mut left: Vec<TestResult> = list;
    let ghost mut k: int = all.len() as int;
    let mut front: Vec<TestResult> = Vec::new();
    // The results are taken off the back, so they are turned round first.
    while left.len() > 0
        invariant
            all == outcomes(list@),
            0 <= k <= all.len(),
            outcomes(left@) == all.take(k),
            outcomes(front@) == all.skip(k).reverse(),
        decreases left@.len(),
    {
        let ghost before = outcomes(front@);
        let ghost whole = outcomes(left@);
        match left.pop() {
            Some(t) => {
                let ghost v = t@;
                front.push(t);
                proof {
                    assert(outcomes(left@) =~= whole.drop_last());
                    assert(v == whole.last());
                    assert(v == all[k - 1]);
                    assert(outcomes(front@) =~= before.push(v));
                    assert(all.skip(k - 1).reverse() =~= all.skip(k).reverse().push(v));
                    k = k - 1;
                    assert(outcomes(left@) =~= all.take(k));
                }
            },
            None => {},
        }
    }
    assert(all.skip(0) =~= all);
    assert(outcomes(r@) =~= by_path(all.take(0)));
    while front.len() > 0
        invariant
            all == outcomes(list@),
            0 <= k <= all.len(),
            outcomes(front@) == all.skip(k).reverse(),
            outcomes(r@) == by_path(all.take(k)),
        decreases front@.len(),
    {
        let ghost whole = outcomes(front@);
        match front.pop() {
            Some(t) => {
                let ghost v = t@;
                proof {
                    assert(outcomes(front@) =~= whole.drop_last());
                    assert(v == whole.last());
                    assert(v == all[k]);
                    assert(all.skip(k + 1).reverse() =~= whole.drop_last());
                    assert(all.take(k + 1).drop_last() =~= all.take(k));
                }
                place_result(&mut r, t);
                proof {
                    k = k + 1;
                }
            },
            None => {},
        }
    }
    assert(all.take(k) =~= all);
    r
}

fn place_result(list: &mut Vec<TestResult>, t: TestResult)
    ensures
        outcomes(final(list)@) == placed(outcomes(old(list)@), t@),
{
    let ghost all = outcomes(list@);
    let ghost v = t@;
    let key = chars_of(t.path.as_str());
    let mut n: usize = list.len();
    assert(all.take(n as int) =~= all);
    assert(placed(all.take(n as int), v) + all.skip(n as int) =~= placed(all, v));
    while n > 0 && text_precedes(key.as_slice(), list[n - 1].path.as_str())
        invariant
            n <= list@.len(),
            all == outcomes(list@),
            key@ == v.path,
            placed(all.take(n as int), v) + all.skip(n as int) == placed(all, v),
        decreases n,
    {
        proof {
            let upto = all.take(n as int);
            assert(upto.last() == list@[n - 1]@);
            assert(upto.drop_last() =~= all.take(n - 1));
            assert(placed(all.take(n - 1), v).push(upto.last()) + all.skip(n as int) =~= placed(
                all.take(n - 1),
                v,
            ) + all.skip(n - 1));
        }
        n -= 1;
    }
    proof {
        let upto = all.take(n as int);
        if n > 0 {
            assert(upto.last() == list@[n - 1]@);
        }
        assert(placed(upto, v) == upto.push(v));
    }
    list.insert(n, t);
    assert(outcomes(list@) =~= all.take(n as int).push(v) + all.skip(n as int));
}

fn text_precedes(a: &[char], b: &str) -> (r: bool)
    ensures
        r == path::text_before(a@, b@),
{
    let b = chars_of(b);
    path::relate_text(a, b.as_slice()) == Rel::Before
}

/// A report: its lines, and the code with which the command ends.
pub struct TestReport {
    pub lines: Vec<String>,
    pub code: i32,
}

/// Reports the results: a line for each, in the order of the paths, and the
/// summary. The command fails where a test has failed.
pub fn report(list: Vec<TestResult>, framework: TestFramework) -> (r: TestReport)
    ensures
        ({
            let all = by_path(outcomes(list@));
            &&& text::views(r.lines@) == all.map_values(|t: Outcome| result_line(t)).push(
                summary_line(all, framework),
            )
            &&& r.code == (if failures(all) > 0 {
                1int
            } else {
                0
            })
        }),
        r.code == 0 || r.code == 1,
        r.code == 0 <==> (forall|i: int| 0 <= i < list@.len() ==> (#[trigger] list@[i]).code == 0),
        failed_lines(text::views(r.lines@)) == failed_count(outcomes(list@)),
        r.lines@.len() == list@.len() + 1,
{
    let ghost all = by_path(outcomes(list@));
    let ghost given = outcomes(list@);
    let ghost results = list@;
    let sorted = sort_results(list);
    let mut lines: Vec<String> = Vec::new();
    let mut failed: u64 = 0;
    let mut total: u128 = 0;
    let mut i: usize = 0;
    assert(text::views(lines@) =~= all.take(0).map_values(|t: Outcome| result_line(t)));
    while i < sorted.len()
        invariant
            i <= sorted@.len(),
            all == outcomes(sorted@),
            failed == failures(all.take(i as int)),
            failed <= i,
            total == total_ms(all.take(i as int)),
            total <= i * 0xffff_ffff_ffff_ffff,
            text::views(lines@) == all.take(i as int).map_values(|t: Outcome| result_line(t)),
        decreases sorted@.len() - i,
    {
        let ghost before = text::views(lines@);
        proof {
            let upto = all.take(i + 1);
            assert(upto.drop_last() =~= all.take(i as int));
            assert(upto.last() == sorted@[i as int]@);
        }
        lines.push(result_text(&sorted[i]));
        assert(text::views(lines@) =~= before.push(result_line(all[i as int])));
        if sorted[i].code != 0 {
            failed = failed + 1;
        }
        total = total + sorted[i].ms as u128;
        i += 1;
        assert(text::views(lines@) =~= all.take(i as int).map_values(|t: Outcome| result_line(t)));
    }
    assert(all.take(i as int) =~= all);
    let mut s = "calisto: ".to_string();
    s.append(decimal_of(sorted.len() as u64).as_str());
    s.append(" arquivo(s) de teste, ");
    s.append(decimal_of(failed).as_str());
    s.append(" falhou(ram) em ");
    s.append(decimal_of_wide(total).as_str());
    s.append("ms (framework: ");
    s.append(framework.name());
    s.append(")");
    let ghost before = text::views(lines@);
    let ghost line = s@;
    lines.push(s);
    assert(text::views(lines@) =~= before.push(line));
    proof {
        law_report_order(given);
        law_report_counts(given);
        assert forall|i: int| 0 <= i < results.len() implies (#[trigger] results[i]).code
            == given[i].code by {
            assert(given[i] == results[i]@);
        }
        assert((forall|i: int| 0 <= i < given.len() ==> (#[trigger] given[i]).code == 0) <==> (
        forall|i: int| 0 <= i < results.len() ==> (#[trigger] results[i]).code == 0));
        let says = |l: Seq<char>| text::has_prefix(l, "FAIL "@);
        lemma_filter_last(before, line, says);
        assert(!says(line)) by {
            reveal_strlit("FAIL ");
            reveal_strlit("calisto: ");
            assert(line[0] == 'c');
            assert(line.take(5)[0] == 'c');
        }
    }
    TestReport {
        lines,
        code: if failed > 0 {
            1
        } else {
            0
        },
    }
}

/// The number of results whose code is not zero.
pub open spec fn failed_count(list: Seq<Outcome>) -> nat {
    list.filter(|t: Outcome| t.code != 0).len()
}

/// The number of lines that begin with `FAIL`.
pub open spec fn failed_lines(lines: Seq<Seq<char>>) -> nat {
    lines.filter(|l: Seq<char>| text::has_prefix(l, "FAIL "@)).len()
}

/// The line of a result tells whether it has failed, exactly by its code, and
/// names the file.
pub proof fn law_result_line(t: Outcome)
    ensures
        text::has_prefix(result_line(t), "FAIL "@) <==> t.code != 0,
        text::has_prefix(result_line(t), "ok "@) <==> t.code == 0,
        t.code == 0 ==> result_line(t) == "ok "@ + (t.path + (" ("@ + (number::decimal(t.ms as nat)
            + "ms)"@))),
        t.code != 0 ==> result_line(t) == "FAIL "@ + (t.path + (" ("@ + (number::decimal(t.ms as nat)
            + ("ms, exit "@ + (number::signed_decimal(t.code as int) + (")"@ + t.error)))))),
{
    reveal_strlit("FAIL ");
    reveal_strlit("ok ");
    let r = result_line(t);
    let ms = number::decimal(t.ms as nat);
    if t.code == 0 {
        assert(r.take(3) =~= "ok "@);
        assert(r[0] == 'o');
        assert("FAIL "@[0] == 'F');
        if text::has_prefix(r, "FAIL "@) {
            assert(r.take(5)[0] == r[0]);
        }
        assert(r =~= "ok "@ + (t.path + (" ("@ + (ms + "ms)"@))));
    } else {
        assert(r.take(5) =~= "FAIL "@);
        assert(r.take(3)[0] == r[0]);
        assert(r[0] == 'F');
        assert("ok "@[0] == 'o');
        assert(r =~= "FAIL "@ + (t.path + (" ("@ + (ms + ("ms, exit "@ + (number::signed_decimal(
            t.code as int,
        ) + (")"@ + t.error)))))));
    }
}

proof fn lemma_failures_counted(list: Seq<Outcome>)
    ensures
        failures(list) == failed_count(list),
        failures(list) <= list.len(),
        failures(list) == 0 <==> (forall|i: int| 0 <= i < list.len() ==> (#[trigger] list[i]).code == 0),
        failed_lines(list.map_values(|t: Outcome| result_line(t))) == failures(list),
    decreases list.len(),
{
    let bad = |t: Outcome| t.code != 0;
    let says = |l: Seq<char>| text::has_prefix(l, "FAIL "@);
    let lines = list.map_values(|t: Outcome| result_line(t));
    if list.len() > 0 {
        let head = list.drop_last();
        let t = list.last();
        lemma_failures_counted(head);
        assert(head.push(t) =~= list);
        let first = head.map_values(|t: Outcome| result_line(t));
        assert(lines =~= first.push(result_line(t)));
        lemma_filter_last(head, t, bad);
        lemma_filter_last(first, result_line(t), says);
        law_result_line(t);
        if failures(list) == 0 {
            assert forall|i: int| 0 <= i < list.len() implies (#[trigger] list[i]).code == 0 by {
                if i < head.len() {
                    assert(list[i] == head[i]);
                }
            }
        }
        if forall|i: int| 0 <= i < list.len() ==> (#[trigger] list[i]).code == 0 {
            assert(list[list.len() - 1].code == 0);
            assert forall|i: int| 0 <= i < head.len() implies (#[trigger] head[i]).code == 0 by {
                assert(head[i] == list[i]);
            }
        }
    } else {
        reveal(Seq::filter);
    }
}

proof fn lemma_filter_last<A>(s: Seq<A>, x: A, keep: spec_fn(A) -> bool)
    ensures
        s.push(x).filter(keep).len() == s.filter(keep).len() + (if keep(x) {
            1nat
        } else {
            0nat
        }),
{
    reveal(Seq::filter);
    assert(s.push(x).drop_last() =~= s);
}

proof fn lemma_same_failures(a: Seq<Outcome>, b: Seq<Outcome>)
    requires
        a.to_multiset() == b.to_multiset(),
    ensures
        failures(a) == failures(b),
        total_ms(a) == total_ms(b),
    decreases a.len(),
{
    broadcast use vstd::seq_lib::group_to_multiset_ensures;

    assert(a.to_multiset().len() == a.len() && b.to_multiset().len() == b.len());
    if a.len() > 0 {
        let t = a.last();
        assert(a[a.len() - 1] == t);
        assert(a.contains(t));
        assert(b.to_multiset().count(t) > 0);
        assert(b.contains(t));
        let i = choose|i: int| 0 <= i < b.len() && b[i] == t;
        assert(a.drop_last() =~= a.remove(a.len() - 1));
        assert(a.drop_last().to_multiset() =~= a.to_multiset().remove(t));
        assert(b.remove(i).to_multiset() =~= b.to_multiset().remove(t));
        lemma_same_failures(a.drop_last(), b.remove(i));
        lemma_without_one(b, i);
    }
}

proof fn lemma_without_one(list: Seq<Outcome>, i: int)
    requires
        0 <= i < list.len(),
    ensures
        failures(list) == failures(list.remove(i)) + (if list[i].code == 0 {
            0nat
        } else {
            1nat
        }),
        total_ms(list) == total_ms(list.remove(i)) + list[i].ms,
    decreases list.len(),
{
    if i == list.len() - 1 {
        assert(list.remove(i) =~= list.drop_last());
    } else {
        let head = list.drop_last();
        lemma_without_one(head, i);
        assert(list.remove(i).drop_last() =~= head.remove(i));
        assert(list.remove(i).last() == list.last());
    }
}

/// What is counted does not depend on the order in which tests end: a report
/// counts each result whose code is not zero as a failure and no other, it has
/// as many lines that begin with `FAIL`, and its time is that of all results.
pub proof fn law_report_counts(list: Seq<Outcome>)
    ensures
        failures(by_path(list)) == failed_count(list),
        failed_lines(by_path(list).map_values(|t: Outcome| result_line(t))) == failed_count(list),
        failed_count(list) == 0 <==> (forall|i: int|
            0 <= i < list.len() ==> (#[trigger] list[i]).code == 0),
        total_ms(by_path(list)) == total_ms(list),
{
    law_report_order(list);
    lemma_same_failures(by_path(list), list);
    lemma_failures_counted(list);
    lemma_failures_counted(by_path(list));
}

/// The time of a report adds up the times of its results.
pub proof fn law_total_time(a: Seq<Outcome>, t: Outcome, b: Seq<Outcome>)
    ensures
        total_ms(a + seq![t] + b) == total_ms(a) + t.ms + total_ms(b),
        total_ms(Seq::empty()) == 0,
    decreases b.len(),
{
    let s = a + seq![t] + b;
    if b.len() == 0 {
        assert(s.drop_last() =~= a);
    } else {
        law_total_time(a, t, b.drop_last());
        assert(s.drop_last() =~= a + seq![t] + b.drop_last());
        assert(s.last() == b.last());
    }
}

/// The summary says how many files were run, how many of them have failed, how
/// long they took, and what they were run with.
pub proof fn law_summary(list: Seq<Outcome>, framework: TestFramework)
    ensures
        summary_line(by_path(list), framework) == "calisto: "@ + number::decimal(list.len())
            + " arquivo(s) de teste, "@ + number::decimal(failed_count(list)) + " falhou(ram) em "@
            + number::decimal(total_ms(list)) + "ms (framework: "@ + (match framework {
            TestFramework::Minitest => "minitest"@,
            TestFramework::Rspec => "rspec"@,
        }) + ")"@,
{
    law_report_order(list);
    law_report_counts(list);
}

/// Whether a file has changed between two snapshots, which hold the length
/// and the time of the last change of every file.
pub fn snapshot_changed(a: &Vec<(u64, u64)>, b: &Vec<(u64, u64)>) -> (r: bool)
    ensures
        r == (a@ != b@),
{
    if a.len() != b.len() {
        return true;
    }
    let mut i: usize = 0;
    while i < a.len()
        invariant
            i <= a@.len(),
            a@.len() == b@.len(),
            forall|j: int| 0 <= j < i ==> a@[j] == b@[j],
        decreases a@.len() - i,
    {
        if a[i].0 != b[i].0 || a[i].1 != b[i].1 {
            assert(a@[i as int] != b@[i as int]);
            return true;
        }
        i += 1;
    }
    assert(a@ =~= b@);
    false
}

/// The two frameworks: where their tests stand, how the files are named, and
/// what they are called.
pub proof fn law_frameworks()
    ensures
        TestFramework::Minitest.dir_name() == "test"@,
        TestFramework::Minitest.ending() == "_test.rb"@,
        TestFramework::Minitest.title() == "minitest"@,
        TestFramework::Rspec.dir_name() == "spec"@,
        TestFramework::Rspec.ending() == "_spec.rb"@,
        TestFramework::Rspec.title() == "rspec"@,
{
}

/// A file is wanted by the end of its own name, wherever it stands.
pub proof fn law_wanted(dir: Seq<char>, stem: Seq<char>, suffix: Seq<char>)
    requires
        !stem.contains('/') && !suffix.contains('/'),
        (stem + suffix).len() > 0 && (stem + suffix)[0] != '.',
    ensures
        is_wanted(dir + seq!['/'] + (stem + suffix), suffix),
        forall|other: Seq<char>|
            #![trigger text::has_suffix(stem + suffix, other)]
            is_wanted(dir + seq!['/'] + (stem + suffix), other) <==> text::has_suffix(
                stem + suffix,
                other,
            ),
{
    let name = stem + suffix;
    assert(!name.contains('/')) by {
        if name.contains('/') {
            let i = choose|i: int| 0 <= i < name.len() && name[i] == '/';
            if i < stem.len() {
                assert(stem[i] == '/');
            } else {
                assert(suffix[i - stem.len()] == '/');
            }
        }
    }
    path::lemma_file_name(dir + seq!['/'], name);
    text::law_prefix_and_suffix(stem, suffix);
}

/// The tests of an application with a daemon run in one of its own; without one
/// they run where everything else does.
pub proof fn law_testing_dir(app: appconfig::Config, ruby: Seq<char>, runtime_dir: Seq<char>)
    ensures
        app.preload is Some ==> testing_dir(Some(app), ruby, runtime_dir) == appconfig::app_dir(
            app,
            "test"@,
            runtime::version_of(ruby),
            runtime_dir,
        ),
        app.preload is None ==> testing_dir(Some(app), ruby, runtime_dir) == runtime::generic_dir(
            ruby,
            runtime_dir,
        ),
        testing_dir(None, ruby, runtime_dir) == runtime::generic_dir(ruby, runtime_dir),
{
}

/// Results of one path keep the order in which they came.
pub proof fn law_same_path_order(list: Seq<Outcome>)
    requires
        forall|i: int, j: int|
            0 <= i < list.len() && 0 <= j < list.len() ==> (#[trigger] list[i]).path == (
            #[trigger] list[j]).path,
    ensures
        by_path(list) == list,
    decreases list.len(),
{
    if list.len() > 0 {
        let head = list.drop_last();
        assert forall|i: int, j: int| 0 <= i < head.len() && 0 <= j < head.len() implies (
        #[trigger] head[i]).path == (#[trigger] head[j]).path by {
            assert(head[i] == list[i] && head[j] == list[j]);
        }
        law_same_path_order(head);
        let t = list.last();
        assert(head.push(t) =~= list);
        if head.len() > 0 {
            assert(head.last() == list[head.len() - 1]);
            assert(list[head.len() - 1].path == list[list.len() - 1].path);
            path::lemma_text_total(t.path, t.path);
        }
    } else {
        assert(by_path(list) =~= list);
    }
}

} // verus!
