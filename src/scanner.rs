//! Grouping data files into families by their names.

use vstd::multiset::Multiset;
use vstd::prelude::*;

use crate::merger::names_view;
use crate::text::{chars_of, string_of};

verus! {

/// One file of a family: its path, and its variant tag (`None` for the base file).
#[derive(Debug)]
pub struct FamilyMember {
    pub path: String,
    pub suffix: Option<String>,
}

pub struct MemberModel {
    pub path: Seq<char>,
    pub suffix: Option<Seq<char>>,
}

impl View for FamilyMember {
    type V = MemberModel;

    open spec fn view(&self) -> MemberModel {
        MemberModel {
            path: self.path@,
            suffix: match self.suffix {
                Some(s) => Some(s@),
                None => None,
            },
        }
    }
}

impl Clone for FamilyMember {
    fn clone(&self) -> (r: Self)
        ensures
            r == *self,
    {
        FamilyMember {
            path: self.path.clone(),
            suffix: match &self.suffix {
                Some(s) => Some(s.clone()),
                None => None,
            },
        }
    }
}

/// The files that make up one logical table, base file first.
#[derive(Debug)]
pub struct Family {
    pub name: String,
    pub members: Vec<FamilyMember>,
}

/// The families found under some roots.
#[derive(Debug)]
pub struct ScanResult {
    pub roots: Vec<String>,
    /// Sorted by name.
    pub families: Vec<Family>,
    pub total_files: usize,
}

pub open spec fn members_view(m: Seq<FamilyMember>) -> Seq<MemberModel> {
    m.map_values(|x: FamilyMember| x@)
}

/// Text order: by character codes, a proper prefix first.
pub open spec fn text_less(a: Seq<char>, b: Seq<char>) -> bool
    decreases a.len(),
{
    if a.len() == 0 {
        b.len() > 0
    } else if b.len() == 0 {
        false
    } else if a[0] != b[0] {
        a[0] < b[0]
    } else {
        text_less(a.drop_first(), b.drop_first())
    }
}

pub proof fn lemma_text_less_irreflexive(a: Seq<char>)
    ensures
        !text_less(a, a),
    decreases a.len(),
{
    if a.len() > 0 {
        lemma_text_less_irreflexive(a.drop_first());
    }
}

pub proof fn lemma_text_less_transitive(a: Seq<char>, b: Seq<char>, c: Seq<char>)
    requires
        text_less(a, b),
        text_less(b, c),
    ensures
        text_less(a, c),
    decreases a.len(),
{
    if a.len() > 0 && b.len() > 0 && c.len() > 0 && a[0] == b[0] && b[0] == c[0] {
        lemma_text_less_transitive(a.drop_first(), b.drop_first(), c.drop_first());
    }
}

pub proof fn lemma_text_less_total(a: Seq<char>, b: Seq<char>)
    ensures
        a != b ==> text_less(a, b) || text_less(b, a),
        !(text_less(a, b) && text_less(b, a)),
    decreases a.len(),
{
    if a.len() > 0 && b.len() > 0 && a[0] == b[0] {
        lemma_text_less_total(a.drop_first(), b.drop_first());
        if a != b {
            assert(a.drop_first() != b.drop_first()) by {
                if a.drop_first() == b.drop_first() {
                    assert forall|i: int| 0 <= i < a.len() implies a[i] == b[i] by {
                        if i > 0 {
                            assert(a[i] == a.drop_first()[i - 1]);
                            assert(b[i] == b.drop_first()[i - 1]);
                        }
                    }
                    assert(a =~= b);
                }
            }
        }
    } else if a.len() == 0 && b.len() == 0 {
        assert(a =~= b);
    }
}

/// Characters in path order: the separator first, then by character code.
pub open spec fn path_char_before(x: char, y: char) -> bool {
    if x == '/' {
        y != '/'
    } else if y == '/' {
        false
    } else {
        x < y
    }
}

/// Path order: component by component, a path that ends where another goes on
/// first, and within a component by character code.
pub open spec fn path_less(a: Seq<char>, b: Seq<char>) -> bool
    decreases a.len(),
{
    if a.len() == 0 {
        b.len() > 0
    } else if b.len() == 0 {
        false
    } else if a[0] != b[0] {
        path_char_before(a[0], b[0])
    } else {
        path_less(a.drop_first(), b.drop_first())
    }
}

pub proof fn lemma_path_less_transitive(a: Seq<char>, b: Seq<char>, c: Seq<char>)
    requires
        path_less(a, b),
        path_less(b, c),
    ensures
        path_less(a, c),
    decreases a.len(),
{
    if a.len() > 0 && b.len() > 0 && c.len() > 0 && a[0] == b[0] && b[0] == c[0] {
        lemma_path_less_transitive(a.drop_first(), b.drop_first(), c.drop_first());
    }
}

pub proof fn lemma_path_less_total(a: Seq<char>, b: Seq<char>)
    ensures
        a != b ==> path_less(a, b) || path_less(b, a),
        !(path_less(a, b) && path_less(b, a)),
        !path_less(a, a),
    decreases a.len(),
{
    if a.len() > 0 && b.len() > 0 && a[0] == b[0] {
        lemma_path_less_total(a.drop_first(), b.drop_first());
        if a != b {
            assert(a.drop_first() != b.drop_first()) by {
                if a.drop_first() == b.drop_first() {
                    assert forall|i: int| 0 <= i < a.len() implies a[i] == b[i] by {
                        if i > 0 {
                            assert(a[i] == a.drop_first()[i - 1]);
                            assert(b[i] == b.drop_first()[i - 1]);
                        }
                    }
                    assert(a =~= b);
                }
            }
        }
    } else if a.len() == 0 && b.len() == 0 {
        assert(a =~= b);
    }
    if a.len() > 0 {
        lemma_path_less_total(a.drop_first(), a.drop_first());
    }
}

/// Members in order: the base files first, by path; then the variants by tag,
/// and by path among equal tags.
pub open spec fn member_less(a: MemberModel, b: MemberModel) -> bool {
    match (a.suffix, b.suffix) {
        (None, Some(_)) => true,
        (Some(_), None) => false,
        (None, None) => path_less(a.path, b.path),
        (Some(x), Some(y)) => text_less(x, y) || (x == y && path_less(a.path, b.path)),
    }
}

proof fn lemma_member_less_transitive(a: MemberModel, b: MemberModel, c: MemberModel)
    requires
        member_less(a, b),
        member_less(b, c),
    ensures
        member_less(a, c),
{
    match (a.suffix, b.suffix, c.suffix) {
        (None, None, None) => lemma_path_less_transitive(a.path, b.path, c.path),
        (Some(x), Some(y), Some(z)) => {
            if text_less(x, y) && text_less(y, z) {
                lemma_text_less_transitive(x, y, z);
            } else if text_less(x, y) {
            } else if text_less(y, z) {
            } else {
                lemma_path_less_transitive(a.path, b.path, c.path);
            }
        },
        _ => {},
    }
}

proof fn lemma_member_less_total(a: MemberModel, b: MemberModel)
    ensures
        !(member_less(a, b) && member_less(b, a)),
{
    lemma_path_less_total(a.path, b.path);
    match (a.suffix, b.suffix) {
        (Some(x), Some(y)) => {
            lemma_text_less_total(x, y);
            if x == y {
                lemma_text_less_irreflexive(x);
            }
        },
        _ => {},
    }
}

/// Members sorted: no member comes before an earlier one.
pub open spec fn members_sorted(m: Seq<MemberModel>) -> bool {
    forall|i: int, j: int| 0 <= i < j < m.len() ==> !member_less(m[j], m[i])
}

/// The variant tags that mark a file as a variant of a base table.
pub open spec fn known_suffix_list() -> Seq<Seq<char>> {
    seq![
        "drk"@,
        "ep1"@,
        "gib"@,
        "kcc"@,
        "lel"@,
        "mem"@,
        "shale"@,
        "str"@,
        "val"@,
        "vala"@,
        "toe"@,
        "hrm"@,
        "ibmoobs"@,
        "gxa"@,
    ]
}

/// The variant tags that mark a file as a variant of a base table.
pub fn known_suffixes() -> (r: Vec<String>)
    ensures
        names_view(r@) == known_suffix_list(),
{
    let r = vec![
        "drk".to_owned(),
        "ep1".to_owned(),
        "gib".to_owned(),
        "kcc".to_owned(),
        "lel".to_owned(),
        "mem".to_owned(),
        "shale".to_owned(),
        "str".to_owned(),
        "val".to_owned(),
        "vala".to_owned(),
        "toe".to_owned(),
        "hrm".to_owned(),
        "ibmoobs".to_owned(),
        "gxa".to_owned(),
    ];
    assert(names_view(r@) =~= known_suffix_list());
    r
}

/// Whether `name` ends with an underscore followed by `tag`.
pub open spec fn ends_with_tag(name: Seq<char>, tag: Seq<char>) -> bool {
    name.len() >= tag.len() + 1 && name.skip(name.len() - tag.len() - 1) == seq!['_'] + tag
}

/// Tag `i` of `tags` is the one that `name` is split by: `name` ends with it,
/// no tag it ends with is longer, and no earlier tag it ends with is as long.
pub open spec fn is_split_tag(name: Seq<char>, tags: Seq<Seq<char>>, i: int) -> bool {
    &&& 0 <= i < tags.len()
    &&& ends_with_tag(name, tags[i])
    &&& forall|j: int|
        0 <= j < tags.len() && ends_with_tag(name, #[trigger] tags[j]) ==> tags[j].len()
            < tags[i].len() || (tags[j].len() == tags[i].len() && j >= i)
}

/// The family name and variant tag of a file name: the name without `_tag` for the
/// longest tag of `tags` that it ends with (the first of them on a tie); the whole
/// name and no tag when it ends with none.
pub open spec fn family_split(name: Seq<char>, tags: Seq<Seq<char>>) -> (Seq<char>, Option<Seq<char>>) {
    if exists|i: int| is_split_tag(name, tags, i) {
        let i = choose|i: int| is_split_tag(name, tags, i);
        (name.take(name.len() - tags[i].len() - 1), Some(tags[i]))
    } else {
        (name, None)
    }
}

proof fn lemma_split_tag_unique(name: Seq<char>, tags: Seq<Seq<char>>, i: int, k: int)
    requires
        is_split_tag(name, tags, i),
        is_split_tag(name, tags, k),
    ensures
        i == k,
{
    assert(ends_with_tag(name, tags[k]));
    assert(ends_with_tag(name, tags[i]));
}

/// Whether `v` ends with `_` followed by `tag`.
fn ends_with_tag_exec(v: &Vec<char>, tag: &Vec<char>) -> (r: bool)
    ensures
        r == ends_with_tag(v@, tag@),
{
    let n = v.len();
    if tag.len() >= n {
        return false;
    }
    let start = n - tag.len() - 1;
    let ghost want = seq!['_'] + tag@;
    if v[start] != '_' {
        assert(v@.skip(start as int)[0] != want[0]);
        return false;
    }
    let mut k: usize = 0;
    while k < tag.len()
        invariant
            k <= tag@.len(),
            n == v@.len(),
            start + tag@.len() + 1 == n,
            v@[start as int] == '_',
            want == seq!['_'] + tag@,
            forall|m: int| 0 <= m < k ==> v@[start + 1 + m] == tag@[m],
        decreases tag.len() - k,
    {
        if v[start + 1 + k] != tag[k] {
            assert(v@.skip(start as int)[k + 1] != want[k + 1]);
            return false;
        }
        k += 1;
    }
    assert(v@.skip(start as int) =~= want);
    true
}

/// A string holding `v[lo..hi]`.
fn string_of_range(v: &Vec<char>, lo: usize, hi: usize) -> (r: String)
    requires
        lo <= hi <= v@.len(),
    ensures
        r@ == v@.subrange(lo as int, hi as int),
{
    let mut part: Vec<char> = Vec::new();
    let mut i = lo;
    while i < hi
        invariant
            lo <= i <= hi,
            hi <= v@.len(),
            part@ == v@.subrange(lo as int, i as int),
        decreases hi - i,
    {
        part.push(v[i]);
        i += 1;
        assert(part@ =~= v@.subrange(lo as int, i as int));
    }
    string_of(&part)
}

/// Splits a file name into its family name and variant tag, by the longest tag
/// of `tags` that the name ends with after an underscore.
pub fn split_family_name(file_name: &str, tags: &Vec<String>) -> (r: (String, Option<String>))
    ensures
        r.0@ == family_split(file_name@, names_view(tags@)).0,
        match r.1 {
            Some(s) => family_split(file_name@, names_view(tags@)).1 == Some(s@),
            None => family_split(file_name@, names_view(tags@)).1 is None,
        },
{
    let v = chars_of(file_name);
    let ghost ts = names_view(tags@);
    let mut best: Option<usize> = None;
    let mut best_len: usize = 0;
    let mut i: usize = 0;
    while i < tags.len()
        invariant
            i <= tags@.len(),
            v@ == file_name@,
            ts == names_view(tags@),
            match best {
                Some(b) => b < i && ends_with_tag(v@, ts[b as int]) && best_len == ts[b as int].len()
                    && forall|j: int|
                    0 <= j < i && ends_with_tag(v@, #[trigger] ts[j]) ==> ts[j].len() < ts[b as int].len()
                        || (ts[j].len() == ts[b as int].len() && j >= b),
                None => forall|j: int| 0 <= j < i ==> !ends_with_tag(v@, #[trigger] ts[j]),
            },
        decreases tags.len() - i,
    {
        let tag = chars_of(tags[i].as_str());
        assert(ts[i as int] == tags@[i as int]@);
        if ends_with_tag_exec(&v, &tag) {
            let better = match best {
                Some(_) => tag.len() > best_len,
                None => true,
            };
            if better {
                best = Some(i);
                best_len = tag.len();
            }
        }
        i += 1;
    }
    match best {
        Some(b) => {
            proof {
                assert(is_split_tag(v@, ts, b as int));
                let k = choose|k: int| is_split_tag(v@, ts, k);
                lemma_split_tag_unique(v@, ts, b as int, k);
            }
            let cut = v.len() - best_len - 1;
            let base = string_of_range(&v, 0, cut);
            assert(v@.subrange(0, cut as int) =~= v@.take(cut as int));
            (base, Some(tags[b].clone()))
        },
        None => {
            assert(!exists|k: int| is_split_tag(v@, ts, k));
            (file_name.to_owned(), None)
        },
    }
}

/// The family name and variant tag of a file name (without extension), using the
/// known variant tags.
pub fn extract_family_info(file_name: &str) -> (r: (String, Option<String>))
    ensures
        r.0@ == family_split(file_name@, known_suffix_list()).0,
        match r.1 {
            Some(s) => family_split(file_name@, known_suffix_list()).1 == Some(s@),
            None => family_split(file_name@, known_suffix_list()).1 is None,
        },
{
    let tags = known_suffixes();
    split_family_name(file_name, &tags)
}

pub open spec fn is_ascii_alphanumeric(c: char) -> bool {
    ('0' <= c && c <= '9') || ('A' <= c && c <= 'Z') || ('a' <= c && c <= 'z')
}

/// Whether a file name looks like a variant: after its last underscore come two
/// to five ASCII letters or digits.
pub open spec fn looks_like_variant_spec(name: Seq<char>) -> bool {
    exists|u: int|
        0 <= u < name.len() && name[u] == '_' && (forall|m: int| u < m < name.len() ==> name[m] != '_')
            && 2 <= name.len() - u - 1 <= 5 && (forall|m: int|
            u < m < name.len() ==> is_ascii_alphanumeric(#[trigger] name[m]))
}

/// Position of the last underscore of `v`.
fn last_underscore(v: &Vec<char>) -> (r: Option<usize>)
    ensures
        match r {
            Some(u) => u < v@.len() && v@[u as int] == '_' && forall|m: int|
                u < m < v@.len() ==> v@[m] != '_',
            None => forall|m: int| 0 <= m < v@.len() ==> v@[m] != '_',
        },
{
    let n = v.len();
    let mut i = n;
    while i > 0
        invariant
            i <= n,
            n == v@.len(),
            forall|m: int| i <= m < n ==> v@[m] != '_',
        decreases i,
    {
        if v[i - 1] == '_' {
            return Some(i - 1);
        }
        i -= 1;
    }
    None
}

/// Whether `v[lo..hi]` is all ASCII letters and digits.
fn all_alphanumeric_in(v: &Vec<char>, lo: usize, hi: usize) -> (r: bool)
    requires
        lo <= hi <= v@.len(),
    ensures
        r == forall|m: int| lo <= m < hi ==> is_ascii_alphanumeric(#[trigger] v@[m]),
{
    let mut k = lo;
    while k < hi
        invariant
            lo <= k <= hi,
            hi <= v@.len(),
            forall|m: int| lo <= m < k ==> is_ascii_alphanumeric(#[trigger] v@[m]),
        decreases hi - k,
    {
        let c = v[k];
        if !(('0' <= c && c <= '9') || ('A' <= c && c <= 'Z') || ('a' <= c && c <= 'z')) {
            assert(!is_ascii_alphanumeric(v@[k as int]));
            return false;
        }
        k += 1;
    }
    true
}

/// Whether a file name looks like a variant although its tag is not a known one.
pub fn looks_like_variant(file_name: &str) -> (r: bool)
    ensures
        r == looks_like_variant_spec(file_name@),
{
    let v = chars_of(file_name);
    let n = v.len();
    match last_underscore(&v) {
        None => false,
        Some(u) => {
            assert forall|w: int|
                0 <= w < v@.len() && v@[w] == '_' && (forall|m: int|
                    w < m < v@.len() ==> v@[m] != '_') implies w == u by {
                if w < u {
                    assert(v@[u as int] == '_');
                }
            }
            let len = n - u - 1;
            if len < 2 || len > 5 {
                return false;
            }
            if !all_alphanumeric_in(&v, u + 1, n) {
                return false;
            }
            assert(v@[u as int] == '_' && (forall|m: int| u < m < v@.len() ==> v@[m] != '_') && 2
                <= v@.len() - u - 1 <= 5 && (forall|m: int|
                u < m < v@.len() ==> is_ascii_alphanumeric(#[trigger] v@[m])));
            true
        },
    }
}


/// Whether `a` comes before `b` in text order.
pub fn text_lt(a: &String, b: &String) -> (r: bool)
    ensures
        r == text_less(a@, b@),
{
    let x = chars_of(a.as_str());
    let y = chars_of(b.as_str());
    let mut i: usize = 0;
    assert(x@.skip(0) =~= x@);
    assert(y@.skip(0) =~= y@);
    while i < x.len() && i < y.len()
        invariant
            i <= x@.len(),
            i <= y@.len(),
            x@ == a@,
            y@ == b@,
            text_less(x@, y@) == text_less(x@.skip(i as int), y@.skip(i as int)),
        decreases x.len() - i,
    {
        assert(x@.skip(i as int)[0] == x@[i as int]);
        assert(y@.skip(i as int)[0] == y@[i as int]);
        if x[i] != y[i] {
            assert(text_less(x@.skip(i as int), y@.skip(i as int)) == (x@[i as int] < y@[i as int]));
            return x[i] < y[i];
        }
        assert(x@.skip(i as int).drop_first() =~= x@.skip(i + 1));
        assert(y@.skip(i as int).drop_first() =~= y@.skip(i + 1));
        i += 1;
    }
    i < y.len()
}

/// Whether path `a` comes before path `b`.
pub fn path_lt(a: &String, b: &String) -> (r: bool)
    ensures
        r == path_less(a@, b@),
{
    let x = chars_of(a.as_str());
    let y = chars_of(b.as_str());
    let mut i: usize = 0;
    assert(x@.skip(0) =~= x@);
    assert(y@.skip(0) =~= y@);
    while i < x.len() && i < y.len()
        invariant
            i <= x@.len(),
            i <= y@.len(),
            x@ == a@,
            y@ == b@,
            path_less(x@, y@) == path_less(x@.skip(i as int), y@.skip(i as int)),
        decreases x.len() - i,
    {
        assert(x@.skip(i as int)[0] == x@[i as int]);
        assert(y@.skip(i as int)[0] == y@[i as int]);
        if x[i] != y[i] {
            assert(path_less(x@.skip(i as int), y@.skip(i as int)) == path_char_before(
                x@[i as int],
                y@[i as int],
            ));
            return if x[i] == '/' {
                true
            } else if y[i] == '/' {
                false
            } else {
                x[i] < y[i]
            };
        }
        assert(x@.skip(i as int).drop_first() =~= x@.skip(i + 1));
        assert(y@.skip(i as int).drop_first() =~= y@.skip(i + 1));
        i += 1;
    }
    i < y.len()
}

/// Whether member `a` comes before member `b`.
pub fn member_lt(a: &FamilyMember, b: &FamilyMember) -> (r: bool)
    ensures
        r == member_less(a@, b@),
{
    match (&a.suffix, &b.suffix) {
        (None, Some(_)) => true,
        (Some(_), None) => false,
        (None, None) => path_lt(&a.path, &b.path),
        (Some(x), Some(y)) => text_lt(x, y) || (*x == *y && path_lt(&a.path, &b.path)),
    }
}

/// A file found under the roots: its path, and its name without the extension.
pub open spec fn entries_view(files: Seq<(String, String)>) -> Seq<(Seq<char>, Seq<char>)> {
    files.map_values(|f: (String, String)| (f.0@, f.1@))
}

/// The family a file belongs to.
pub open spec fn entry_family(e: (Seq<char>, Seq<char>)) -> Seq<char> {
    family_split(e.1, known_suffix_list()).0
}

/// The member a file makes.
pub open spec fn entry_member(e: (Seq<char>, Seq<char>)) -> MemberModel {
    MemberModel { path: e.0, suffix: family_split(e.1, known_suffix_list()).1 }
}

pub open spec fn in_family(name: Seq<char>) -> spec_fn((Seq<char>, Seq<char>)) -> bool {
    |e: (Seq<char>, Seq<char>)| entry_family(e) == name
}

/// The members that the files of family `name` make.
pub open spec fn family_members(es: Seq<(Seq<char>, Seq<char>)>, name: Seq<char>) -> Multiset<
    MemberModel,
> {
    es.filter(in_family(name)).map_values(|e: (Seq<char>, Seq<char>)| entry_member(e)).to_multiset()
}

/// `families` groups the files `es`: one family per family name, sorted by name,
/// each holding the members of its files, sorted.
pub open spec fn grouped(families: Seq<Family>, es: Seq<(Seq<char>, Seq<char>)>) -> bool {
    &&& forall|i: int, j: int|
        0 <= i < j < families.len() ==> text_less(families[i].name@, families[j].name@)
    &&& forall|i: int|
        0 <= i < families.len() ==> members_sorted(members_view((#[trigger] families[i]).members@))
    &&& forall|i: int|
        0 <= i < families.len() ==> members_view((#[trigger] families[i]).members@).to_multiset()
            == family_members(es, families[i].name@)
    &&& forall|i: int| 0 <= i < families.len() ==> (#[trigger] families[i]).members@.len() > 0
    &&& forall|k: int| 0 <= k < es.len() ==> has_family(families, entry_family(#[trigger] es[k]))
}

/// Whether some family is named `name`.
pub open spec fn has_family(families: Seq<Family>, name: Seq<char>) -> bool {
    exists|i: int| 0 <= i < families.len() && families[i].name@ == name
}

proof fn lemma_family_members_push(
    es: Seq<(Seq<char>, Seq<char>)>,
    e: (Seq<char>, Seq<char>),
    name: Seq<char>,
)
    ensures
        family_members(es.push(e), name) == if entry_family(e) == name {
            family_members(es, name).insert(entry_member(e))
        } else {
            family_members(es, name)
        },
{
    es.lemma_filter_push(e, in_family(name));
    let f = es.filter(in_family(name));
    let g = f.map_values(|x: (Seq<char>, Seq<char>)| entry_member(x));
    assert(f.push(e).map_values(|x: (Seq<char>, Seq<char>)| entry_member(x)) =~= g.push(
        entry_member(e),
    ));
    g.to_multiset_ensures();
}

proof fn lemma_family_members_absent(es: Seq<(Seq<char>, Seq<char>)>, name: Seq<char>)
    requires
        forall|k: int| 0 <= k < es.len() ==> entry_family(#[trigger] es[k]) != name,
    ensures
        family_members(es, name) == Multiset::<MemberModel>::empty(),
    decreases es.len(),
{
    if es.len() == 0 {
        assert(es.filter(in_family(name)) =~= Seq::<(Seq<char>, Seq<char>)>::empty());
        assert(es.filter(in_family(name)).map_values(|e: (Seq<char>, Seq<char>)| entry_member(e))
            =~= Seq::<MemberModel>::empty());
        Seq::<MemberModel>::empty().to_multiset_ensures();
        assert(family_members(es, name) =~= Multiset::<MemberModel>::empty());
    } else {
        let q = es.drop_last();
        assert(q.push(es.last()) =~= es);
        assert forall|k: int| 0 <= k < q.len() implies entry_family(#[trigger] q[k]) != name by {
            assert(q[k] == es[k]);
        }
        lemma_family_members_absent(q, name);
        lemma_family_members_push(q, es.last(), name);
    }
}

proof fn lemma_insert_to_multiset(s: Seq<MemberModel>, p: int, m: MemberModel)
    requires
        0 <= p <= s.len(),
    ensures
        s.insert(p, m).to_multiset() == s.to_multiset().insert(m),
{
    let t = s.insert(p, m);
    assert(t.remove(p) =~= s);
    t.to_multiset_ensures();
    assert(t[p] == m);
    assert(t.contains(m));
    assert(t.to_multiset().count(m) > 0);
    assert(t.to_multiset() =~= s.to_multiset().insert(m));
}

/// Position at which `m` goes into the sorted `members`: after every member that
/// does not come after it.
fn member_position(members: &Vec<FamilyMember>, m: &FamilyMember) -> (r: usize)
    requires
        members_sorted(members_view(members@)),
    ensures
        r <= members@.len(),
        forall|i: int| 0 <= i < r ==> !member_less(m@, (#[trigger] members@[i])@),
        forall|i: int| r <= i < members@.len() ==> !member_less((#[trigger] members@[i])@, m@),
{
    let mut p: usize = 0;
    while p < members.len()
        invariant
            p <= members@.len(),
            members_sorted(members_view(members@)),
            forall|i: int| 0 <= i < p ==> !member_less(m@, (#[trigger] members@[i])@),
        decreases members.len() - p,
    {
        if member_lt(m, &members[p]) {
            proof {
                let mv = members_view(members@);
                assert forall|i: int| p <= i < members@.len() implies !member_less(
                    (#[trigger] members@[i])@,
                    m@,
                ) by {
                    lemma_member_less_total(m@, members@[p as int]@);
                    if i > p && member_less(members@[i]@, m@) {
                        assert(mv[i] == members@[i]@ && mv[p as int] == members@[p as int]@);
                        assert(!member_less(mv[i], mv[p as int]));
                        lemma_member_less_transitive(members@[i]@, m@, members@[p as int]@);
                    }
                }
            }
            return p;
        }
        p += 1;
    }
    p
}

/// Position of the family named `name`, if there is one.
fn family_position(families: &Vec<Family>, name: &String) -> (r: Option<usize>)
    ensures
        match r {
            Some(i) => i < families@.len() && families@[i as int].name@ == name@,
            None => forall|i: int| 0 <= i < families@.len() ==> families@[i].name@ != name@,
        },
{
    let mut i: usize = 0;
    while i < families.len()
        invariant
            i <= families@.len(),
            forall|j: int| 0 <= j < i ==> families@[j].name@ != name@,
        decreases families.len() - i,
    {
        if families[i].name == *name {
            return Some(i);
        }
        i += 1;
    }
    None
}

/// Position at which a family named `name` goes into `families`, sorted by name.
fn name_position(families: &Vec<Family>, name: &String) -> (r: usize)
    requires
        forall|i: int, j: int|
            0 <= i < j < families@.len() ==> text_less(families@[i].name@, families@[j].name@),
        forall|i: int| 0 <= i < families@.len() ==> families@[i].name@ != name@,
    ensures
        r <= families@.len(),
        forall|i: int| 0 <= i < r ==> text_less((#[trigger] families@[i]).name@, name@),
        forall|i: int| r <= i < families@.len() ==> text_less(name@, (#[trigger] families@[i]).name@),
{
    let mut p: usize = 0;
    while p < families.len()
        invariant
            p <= families@.len(),
            forall|i: int, j: int|
                0 <= i < j < families@.len() ==> text_less(families@[i].name@, families@[j].name@),
            forall|i: int| 0 <= i < families@.len() ==> families@[i].name@ != name@,
            forall|i: int| 0 <= i < p ==> text_less((#[trigger] families@[i]).name@, name@),
        decreases families.len() - p,
    {
        if text_lt(name, &families[p].name) {
            proof {
                assert forall|i: int| p <= i < families@.len() implies text_less(
                    name@,
                    (#[trigger] families@[i]).name@,
                ) by {
                    if i > p {
                        assert(text_less(families@[p as int].name@, families@[i].name@));
                        lemma_text_less_transitive(name@, families@[p as int].name@, families@[i].name@);
                    }
                }
            }
            return p;
        }
        proof {
            assert(families@[p as int].name@ != name@);
            lemma_text_less_total(name@, families@[p as int].name@);
        }
        p += 1;
    }
    p
}


proof fn lemma_sorted_insert(s: Seq<MemberModel>, p: int, m: MemberModel)
    requires
        members_sorted(s),
        0 <= p <= s.len(),
        forall|i: int| 0 <= i < p ==> !member_less(m, #[trigger] s[i]),
        forall|i: int| p <= i < s.len() ==> !member_less(#[trigger] s[i], m),
    ensures
        members_sorted(s.insert(p, m)),
{
    let t = s.insert(p, m);
    assert forall|i: int, j: int| 0 <= i < j < t.len() implies !member_less(t[j], t[i]) by {
        if j < p {
            assert(t[i] == s[i] && t[j] == s[j]);
        } else if j == p {
            assert(t[i] == s[i]);
        } else if i < p {
            assert(t[i] == s[i] && t[j] == s[j - 1]);
        } else if i == p {
            assert(t[j] == s[j - 1]);
        } else {
            assert(t[i] == s[i - 1] && t[j] == s[j - 1]);
        }
    }
}

proof fn lemma_group_existing(
    fams: Seq<Family>,
    es: Seq<(Seq<char>, Seq<char>)>,
    e: (Seq<char>, Seq<char>),
    f: int,
    fam: Family,
)
    requires
        grouped(fams, es),
        0 <= f < fams.len(),
        fams[f].name@ == entry_family(e),
        fam.name@ == fams[f].name@,
        members_sorted(members_view(fam.members@)),
        members_view(fam.members@).to_multiset() == members_view(fams[f].members@).to_multiset().insert(
            entry_member(e),
        ),
        fam.members@.len() > 0,
    ensures
        grouped(fams.update(f, fam), es.push(e)),
{
    let g = fams.update(f, fam);
    let q = es.push(e);
    assert forall|i: int| 0 <= i < g.len() implies members_view((#[trigger] g[i]).members@).to_multiset()
        == family_members(q, g[i].name@) by {
        lemma_family_members_push(es, e, g[i].name@);
        if i != f {
            assert(g[i] == fams[i]);
            lemma_text_less_irreflexive(fams[i].name@);
            if i < f {
                assert(text_less(fams[i].name@, fams[f].name@));
            } else {
                assert(text_less(fams[f].name@, fams[i].name@));
            }
            assert(fams[i].name@ != entry_family(e));
        } else {
            assert(members_view(fams[f].members@).to_multiset() == family_members(es, fams[f].name@));
        }
    }
    assert forall|i: int, j: int| 0 <= i < j < g.len() implies text_less(g[i].name@, g[j].name@) by {
        assert(g[i].name@ == fams[i].name@ && g[j].name@ == fams[j].name@);
    }
    assert forall|i: int| 0 <= i < g.len() implies members_sorted(
        members_view((#[trigger] g[i]).members@),
    ) && g[i].members@.len() > 0 by {
        if i != f {
            assert(g[i] == fams[i]);
        }
    }
    assert forall|k: int| 0 <= k < q.len() implies has_family(g, entry_family(#[trigger] q[k])) by {
        if k < es.len() {
            assert(q[k] == es[k]);
            assert(has_family(fams, entry_family(es[k])));
            let i = choose|i: int| 0 <= i < fams.len() && fams[i].name@ == entry_family(es[k]);
            assert(g[i].name@ == fams[i].name@);
        } else {
            assert(g[f].name@ == entry_family(q[k]));
        }
    }
}

proof fn lemma_group_new(
    fams: Seq<Family>,
    es: Seq<(Seq<char>, Seq<char>)>,
    e: (Seq<char>, Seq<char>),
    p: int,
    fam: Family,
)
    requires
        grouped(fams, es),
        forall|i: int| 0 <= i < fams.len() ==> (#[trigger] fams[i]).name@ != entry_family(e),
        0 <= p <= fams.len(),
        forall|i: int| 0 <= i < p ==> text_less((#[trigger] fams[i]).name@, entry_family(e)),
        forall|i: int| p <= i < fams.len() ==> text_less(entry_family(e), (#[trigger] fams[i]).name@),
        fam.name@ == entry_family(e),
        members_view(fam.members@) == seq![entry_member(e)],
    ensures
        grouped(fams.insert(p, fam), es.push(e)),
{
    let g = fams.insert(p, fam);
    let q = es.push(e);
    let name = entry_family(e);
    assert forall|k: int| 0 <= k < es.len() implies entry_family(#[trigger] es[k]) != name by {
        assert(has_family(fams, entry_family(es[k])));
        let i = choose|i: int| 0 <= i < fams.len() && fams[i].name@ == entry_family(es[k]);
        assert(fams[i].name@ != name);
    }
    lemma_family_members_absent(es, name);
    lemma_family_members_push(es, e, name);
    seq![entry_member(e)].to_multiset_ensures();
    Seq::<MemberModel>::empty().to_multiset_ensures();
    assert(seq![entry_member(e)] =~= Seq::<MemberModel>::empty().push(entry_member(e)));
    assert forall|i: int| 0 <= i < g.len() implies members_view((#[trigger] g[i]).members@).to_multiset()
        == family_members(q, g[i].name@) && members_sorted(members_view(g[i].members@))
        && g[i].members@.len() > 0 by {
        lemma_family_members_push(es, e, g[i].name@);
        if i < p {
            assert(g[i] == fams[i]);
        } else if i > p {
            assert(g[i] == fams[i - 1]);
        } else {
            assert(members_view(g[i].members@).len() == 1);
        }
    }
    assert forall|i: int, j: int| 0 <= i < j < g.len() implies text_less(g[i].name@, g[j].name@) by {
        if j < p {
            assert(g[i] == fams[i] && g[j] == fams[j]);
        } else if j == p {
            assert(g[i] == fams[i]);
        } else if i < p {
            assert(g[i] == fams[i] && g[j] == fams[j - 1]);
            lemma_text_less_transitive(fams[i].name@, name, fams[j - 1].name@);
        } else if i == p {
            assert(g[j] == fams[j - 1]);
        } else {
            assert(g[i] == fams[i - 1] && g[j] == fams[j - 1]);
        }
    }
    assert forall|k: int| 0 <= k < q.len() implies has_family(g, entry_family(#[trigger] q[k])) by {
        if k < es.len() {
            assert(q[k] == es[k]);
            assert(has_family(fams, entry_family(es[k])));
            let i = choose|i: int| 0 <= i < fams.len() && fams[i].name@ == entry_family(es[k]);
            if i < p {
                assert(g[i] == fams[i]);
            } else {
                assert(g[i + 1] == fams[i]);
            }
        } else {
            assert(g[p].name@ == entry_family(q[k]));
        }
    }
}

/// Groups files into families.
///
/// Each file is given as its path and its name without extension. A file's
/// family is its name without a known variant tag; within a family the base
/// files come first, by path, then the variants by tag (and by path for equal
/// tags). Families are sorted by name.
pub fn group_families(roots: Vec<String>, files: Vec<(String, String)>) -> (r: ScanResult)
    ensures
        r.roots@ == roots@,
        r.total_files == files@.len(),
        grouped(r.families@, entries_view(files@)),
{
    let ghost es = entries_view(files@);
    let mut families: Vec<Family> = Vec::new();
    let mut i: usize = 0;
    assert(es.take(0) =~= Seq::<(Seq<char>, Seq<char>)>::empty());
    while i < files.len()
        invariant
            i <= files@.len(),
            es == entries_view(files@),
            grouped(families@, es.take(i as int)),
        decreases files.len() - i,
    {
        let path = &files[i].0;
        let stem = &files[i].1;
        let (name, suffix) = extract_family_info(stem.as_str());
        let member = FamilyMember { path: path.clone(), suffix };
        let ghost e = es[i as int];
        assert(e == (path@, stem@));
        assert(entry_family(e) == name@);
        assert(entry_member(e) == member@);
        assert(es.take(i + 1) =~= es.take(i as int).push(e));
        match family_position(&families, &name) {
            Some(f) => {
                let ghost before = families@;
                let mut fam = families.remove(f);
                let ghost old_members = fam.members@;
                let p = member_position(&fam.members, &member);
                proof {
                    lemma_sorted_insert(members_view(old_members), p as int, member@);
                    lemma_insert_to_multiset(members_view(old_members), p as int, member@);
                }
                fam.members.insert(p, member);
                assert(members_view(fam.members@) =~= members_view(old_members).insert(
                    p as int,
                    entry_member(e),
                ));
                families.insert(f, fam);
                assert(families@ =~= before.update(f as int, fam));
                proof {
                    lemma_group_existing(before, es.take(i as int), e, f as int, fam);
                }
            },
            None => {
                let ghost before = families@;
                let p = name_position(&families, &name);
                let mut members: Vec<FamilyMember> = Vec::new();
                members.push(member);
                let fam = Family { name, members };
                assert(members_view(fam.members@) =~= seq![entry_member(e)]);
                families.insert(p, fam);
                proof {
                    lemma_group_new(before, es.take(i as int), e, p as int, fam);
                }
            },
        }
        i += 1;
    }
    assert(es.take(i as int) =~= es);
    let total = files.len();
    ScanResult { roots, families, total_files: total }
}


impl Family {
    /// The first member without a variant tag.
    pub fn base_file(&self) -> (r: Option<&FamilyMember>)
        ensures
            match r {
                Some(m) => exists|i: int|
                    0 <= i < self.members@.len() && self.members@[i] == *m && m.suffix is None
                        && forall|j: int| 0 <= j < i ==> self.members@[j].suffix is Some,
                None => forall|j: int| 0 <= j < self.members@.len() ==> self.members@[j].suffix is Some,
            },
    {
        let mut i: usize = 0;
        while i < self.members.len()
            invariant
                i <= self.members@.len(),
                forall|j: int| 0 <= j < i ==> self.members@[j].suffix is Some,
            decreases self.members.len() - i,
        {
            if self.members[i].suffix.is_none() {
                return Some(&self.members[i]);
            }
            i += 1;
        }
        None
    }

    /// The members with a variant tag, in order.
    pub fn variants(&self) -> (r: Vec<&FamilyMember>)
        ensures
            r@.len() == self.members@.filter(|m: FamilyMember| m.suffix is Some).len(),
            forall|i: int|
                0 <= i < r@.len() ==> *r@[i] == self.members@.filter(
                    |m: FamilyMember| m.suffix is Some,
                )[i],
    {
        let ghost pred = |m: FamilyMember| m.suffix is Some;
        let mut out: Vec<&FamilyMember> = Vec::new();
        let mut i: usize = 0;
        assert(self.members@.take(0).filter(pred) =~= Seq::<FamilyMember>::empty());
        while i < self.members.len()
            invariant
                i <= self.members@.len(),
                pred == (|m: FamilyMember| m.suffix is Some),
                out@.len() == self.members@.take(i as int).filter(pred).len(),
                forall|j: int|
                    0 <= j < out@.len() ==> *out@[j] == self.members@.take(i as int).filter(pred)[j],
            decreases self.members.len() - i,
        {
            let ghost before = self.members@.take(i as int);
            assert(self.members@.take(i + 1) =~= before.push(self.members@[i as int]));
            proof {
                before.lemma_filter_push(self.members@[i as int], pred);
            }
            if self.members[i].suffix.is_some() {
                out.push(&self.members[i]);
            }
            i += 1;
        }
        assert(self.members@.take(i as int) =~= self.members@);
        out
    }
}

impl ScanResult {
    /// The first family named `name`.
    pub fn find_family(&self, name: &str) -> (r: Option<&Family>)
        ensures
            match r {
                Some(f) => exists|i: int|
                    0 <= i < self.families@.len() && self.families@[i] == *f && f.name@ == name@
                        && forall|j: int| 0 <= j < i ==> self.families@[j].name@ != name@,
                None => forall|j: int|
                    0 <= j < self.families@.len() ==> self.families@[j].name@ != name@,
            },
    {
        let key = name.to_owned();
        let mut i: usize = 0;
        while i < self.families.len()
            invariant
                i <= self.families@.len(),
                key@ == name@,
                forall|j: int| 0 <= j < i ==> self.families@[j].name@ != name@,
            decreases self.families.len() - i,
        {
            if self.families[i].name == key {
                return Some(&self.families[i]);
            }
            i += 1;
        }
        None
    }

    /// The names of the families, in order.
    pub fn family_names(&self) -> (r: Vec<&str>)
        ensures
            r@.len() == self.families@.len(),
            forall|i: int| 0 <= i < r@.len() ==> r@[i]@ == self.families@[i].name@,
    {
        let mut out: Vec<&str> = Vec::new();
        let mut i: usize = 0;
        while i < self.families.len()
            invariant
                i <= self.families@.len(),
                out@.len() == i,
                forall|j: int| 0 <= j < i ==> out@[j]@ == self.families@[j].name@,
            decreases self.families.len() - i,
        {
            out.push(self.families[i].name.as_str());
            i += 1;
        }
        out
    }
}

} // verus!
