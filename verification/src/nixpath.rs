//! The search path: parsing the colon-separated entry list, building its
//! value-level representation, and planning the lookups that resolve a
//! `<name/sub>` reference against it. Reading the environment and probing
//! the filesystem are a host's job; everything here works on plain text.

use crate::attrs::AttrMap;
use crate::error::{Error, ErrorKind};
use crate::eval::Eval;
use crate::strutil::{break_str, str_eq, str_starts_with};
use crate::thunk::ThunkV;
use crate::value::{PathSet, Value, ValueV};
use vstd::prelude::*;
use vstd::string::StrSliceExecFns;
use vstd::string::StringExecFns;

verus! {

/// Whether `s` begins with `p`.
pub open spec fn has_prefix(s: Seq<char>, p: Seq<char>) -> bool {
    p.len() <= s.len() && s.subrange(0, p.len() as int) == p
}

/// Whether the text is a URI under one of the schemes whose colons do not
/// separate search-path entries.
pub open spec fn is_uri_spec(s: Seq<char>) -> bool {
    ||| has_prefix(s, "http://"@)
    ||| has_prefix(s, "https://"@)
    ||| has_prefix(s, "file://"@)
    ||| has_prefix(s, "channel:"@)
    ||| has_prefix(s, "channel://"@)
    ||| has_prefix(s, "git://"@)
    ||| has_prefix(s, "s3://"@)
    ||| has_prefix(s, "ssh://"@)
}

/// Whether the text begins with one of the URI schemes that may carry a
/// colon of their own.
pub fn is_uri(s: &str) -> (r: bool)
    ensures
        r == is_uri_spec(s@),
{
    str_starts_with(s, "http://") || str_starts_with(s, "https://") || str_starts_with(
        s,
        "file://",
    ) || str_starts_with(s, "channel:") || str_starts_with(s, "channel://") || str_starts_with(
        s,
        "git://",
    ) || str_starts_with(s, "s3://") || str_starts_with(s, "ssh://")
}

/// The last position in `[lo, hi)` holding `'='`, if any.
pub open spec fn last_eq(n: Seq<char>, lo: int, hi: int) -> Option<int>
    decreases hi - lo,
{
    if hi <= lo {
        None
    } else if n[hi - 1] == '=' {
        Some(hi - 1)
    } else {
        last_eq(n, lo, hi - 1)
    }
}

/// Whether the colon at `k` separates entries, given the previous colon at
/// `pc` (0 when there is none): it does unless the text after the last `=`
/// since `pc` is a URI, whose colons belong to the URI.
pub open spec fn is_sep(n: Seq<char>, pc: int, k: int) -> bool {
    match last_eq(n, pc, k) {
        Some(x) => !is_uri_spec(n.skip(x + 1)),
        None => true,
    }
}

/// The entries of the search-path text from position `k` on: `start` is
/// where the entry under construction began and `pc` the previous colon.
/// Each separating colon closes an entry; a last entry is kept only when
/// non-empty.
pub open spec fn nix_path_split(n: Seq<char>, start: int, pc: int, k: int) -> Seq<Seq<char>>
    decreases n.len() - k,
{
    if k >= n.len() {
        if start < n.len() {
            seq![n.subrange(start, n.len() as int)]
        } else {
            Seq::empty()
        }
    } else if n[k] == ':' {
        if is_sep(n, pc, k) {
            seq![n.subrange(start, k)] + nix_path_split(n, k + 1, k, k + 1)
        } else {
            nix_path_split(n, start, k, k + 1)
        }
    } else {
        nix_path_split(n, start, pc, k + 1)
    }
}

/// The texts of a string list, elementwise.
pub open spec fn texts_v(v: Seq<String>) -> Seq<Seq<char>> {
    Seq::new(v.len(), |i: int| v[i]@)
}

/// The pieces joined with one colon between each pair.
pub open spec fn join_colon(ps: Seq<Seq<char>>) -> Seq<char>
    decreases ps.len(),
{
    if ps.len() == 0 {
        Seq::empty()
    } else if ps.len() == 1 {
        ps[0]
    } else {
        join_colon(ps.drop_last()) + seq![':'] + ps.last()
    }
}

/// The pieces joined, with a colon after the last piece too when any piece
/// exists.
pub open spec fn join_colon_open(ps: Seq<Seq<char>>) -> Seq<char> {
    if ps.len() == 0 {
        Seq::empty()
    } else {
        join_colon(ps) + seq![':']
    }
}

/// Splits a search-path string into its entries. The separator is the
/// colon, except that a colon inside a URI-typed entry — one whose text
/// after its last `=` so far is a URI — separates nothing; an empty
/// trailing entry is dropped. Every separator removed sat between two
/// returned pieces, so joining the pieces with colons restores the input,
/// up to one trailing separator.
pub fn parse_nix_path(n: &str) -> (r: Vec<String>)
    ensures
        n@ == join_colon(texts_v(r@)) || n@ == join_colon_open(texts_v(r@)),
        texts_v(r@) == nix_path_split(n@, 0, 0, 0),
{
    let total: usize = n.unicode_len();
    let mut pieces: Vec<String> = Vec::new();
    let mut start: usize = 0;
    let mut prev_colon: usize = 0;
    let mut i: usize = 0;
    proof {
        assert(n@.subrange(0, 0) =~= join_colon_open(texts_v(pieces@)));
    }
    while i < total
        invariant
            i <= total,
            start <= i,
            prev_colon <= i,
            total == n@.len(),
            start == 0 ==> pieces@.len() == 0,
            pieces@.len() > 0 ==> start >= 1,
            n@.subrange(0, start as int) == join_colon_open(texts_v(pieces@)),
            texts_v(pieces@) + nix_path_split(n@, start as int, prev_colon as int, i as int)
                == nix_path_split(n@, 0, 0, 0),
        decreases total - i,
    {
        if n.get_char(i) == ':' {
            // Does the stretch since the last kept colon end in `=` followed
            // by a URI? Then this colon belongs to the URI.
            let mut eq_at: Option<usize> = None;
            let mut j: usize = prev_colon;
            while j < i
                invariant
                    prev_colon <= j <= i,
                    i < total,
                    total == n@.len(),
                    eq_at matches Some(x) ==> prev_colon <= x < i,
                    match eq_at {
                        Some(x) => last_eq(n@, prev_colon as int, j as int) == Some(x as int),
                        None => last_eq(n@, prev_colon as int, j as int) is None,
                    },
                decreases i - j,
            {
                if n.get_char(j) == '=' {
                    eq_at = Some(j);
                }
                j = j + 1;
            }
            let uri_continues = match eq_at {
                Some(x) => is_uri(n.substring_char(x + 1, total)),
                None => false,
            };
            proof {
                assert(uri_continues == !is_sep(n@, prev_colon as int, i as int)) by {
                    match eq_at {
                        Some(x) => {
                            assert(n@.subrange(x + 1, total as int) =~= n@.skip(x + 1));
                        },
                        None => {},
                    }
                }
                assert(nix_path_split(n@, start as int, prev_colon as int, i as int) == (if is_sep(
                    n@,
                    prev_colon as int,
                    i as int,
                ) {
                    seq![n@.subrange(start as int, i as int)] + nix_path_split(
                        n@,
                        i + 1,
                        i as int,
                        i + 1,
                    )
                } else {
                    nix_path_split(n@, start as int, i as int, i + 1)
                }));
            }
            if uri_continues {
                prev_colon = i;
            } else {
                let piece = n.substring_char(start, i).to_owned();
                let ghost old_pieces = pieces@;
                pieces.push(piece);
                proof {
                    assert(texts_v(pieces@).drop_last() =~= texts_v(old_pieces));
                    assert(texts_v(pieces@).last() == n@.subrange(start as int, i as int));
                    if old_pieces.len() == 0 {
                        assert(join_colon(texts_v(pieces@)) == texts_v(pieces@)[0]);
                        assert(n@.subrange(0, i + 1) =~= join_colon_open(texts_v(pieces@)));
                    } else {
                        assert(join_colon(texts_v(pieces@)) == join_colon(texts_v(old_pieces))
                            + seq![':'] + texts_v(pieces@).last());
                        assert(n@.subrange(0, start as int) == join_colon(texts_v(old_pieces))
                            + seq![':']);
                        assert(n@.subrange(0, i + 1) =~= join_colon_open(texts_v(pieces@)));
                    }
                    assert(texts_v(pieces@) =~= texts_v(old_pieces) + seq![
                        n@.subrange(start as int, i as int),
                    ]);
                    assert(texts_v(pieces@) + nix_path_split(n@, i + 1, i as int, i + 1)
                        =~= texts_v(old_pieces) + nix_path_split(
                        n@,
                        start as int,
                        prev_colon as int,
                        i as int,
                    ));
                }
                start = i + 1;
                prev_colon = i;
            }
        }
        proof {
            if n@[i as int] != ':' {
                assert(nix_path_split(n@, start as int, prev_colon as int, i as int)
                    == nix_path_split(n@, start as int, prev_colon as int, i + 1));
            }
        }
        i = i + 1;
    }
    if start < total {
        let piece = n.substring_char(start, total).to_owned();
        let ghost old_pieces = pieces@;
        pieces.push(piece);
        proof {
            assert(texts_v(pieces@).drop_last() =~= texts_v(old_pieces));
            assert(texts_v(pieces@).last() == n@.subrange(start as int, total as int));
            if old_pieces.len() == 0 {
                assert(join_colon(texts_v(pieces@)) == texts_v(pieces@)[0]);
                assert(n@ =~= join_colon(texts_v(pieces@)));
            } else {
                assert(join_colon(texts_v(pieces@)) == join_colon(texts_v(old_pieces)) + seq![':']
                    + texts_v(pieces@).last());
                assert(n@ =~= join_colon(texts_v(pieces@)));
            }
            assert(nix_path_split(n@, start as int, prev_colon as int, total as int) == seq![
                n@.subrange(start as int, total as int),
            ]);
            assert(texts_v(pieces@) =~= texts_v(old_pieces) + nix_path_split(
                n@,
                start as int,
                prev_colon as int,
                total as int,
            ));
        }
    } else {
        proof {
            assert(n@.subrange(0, start as int) =~= n@);
            assert(nix_path_split(n@, start as int, prev_colon as int, total as int)
                == Seq::<Seq<char>>::empty());
            assert(texts_v(pieces@) =~= texts_v(pieces@) + Seq::<Seq<char>>::empty());
        }
    }
    pieces
}

/// The position of the first `=` at or after `k`, or -1 when none.
pub open spec fn first_eq(e: Seq<char>, k: int) -> int
    decreases e.len() - k,
{
    if k < 0 || k >= e.len() {
        -1
    } else if e[k] == '=' {
        k
    } else {
        first_eq(e, k + 1)
    }
}

/// The `prefix` of a search-path entry: the text before its first `=`,
/// empty when the entry has none.
pub open spec fn entry_prefix(e: Seq<char>) -> Seq<char> {
    if first_eq(e, 0) >= 0 {
        e.subrange(0, first_eq(e, 0))
    } else {
        Seq::empty()
    }
}

/// The `path` of a search-path entry: the text after its first `=`, or the
/// whole entry when it has none.
pub open spec fn entry_path(e: Seq<char>) -> Seq<char> {
    if first_eq(e, 0) >= 0 {
        e.subrange(first_eq(e, 0) + 1, e.len() as int)
    } else {
        e
    }
}

/// A thunk holding a finished context-free string with the given text.
pub open spec fn done_str(tv: Seq<ThunkV>, t: usize, s: Seq<char>) -> bool {
    t < tv.len() && tv[t as int] == ThunkV::Done(
        ValueV::Str { string: s, context: Set::empty() },
    )
}

/// A thunk holding one finished search-path element for the entry text `e`:
/// an attribute set of exactly `prefix` and `path`, both finished strings
/// split around the entry's first `=`.
pub open spec fn nix_path_elem(tv: Seq<ThunkV>, t: usize, e: Seq<char>) -> bool {
    &&& t < tv.len()
    &&& match tv[t as int] {
        ThunkV::Done(ValueV::AttrSet(m)) => {
            &&& m.dom() == Set::<Seq<char>>::empty().insert("prefix"@).insert("path"@)
            &&& done_str(tv, m["prefix"@], entry_prefix(e))
            &&& done_str(tv, m["path"@], entry_path(e))
        },
        _ => false,
    }
}

proof fn lemma_first_eq_split(e: Seq<char>, a: Seq<char>, b: Seq<char>, k: int)
    requires
        e == a + seq!['='] + b,
        !a.contains('='),
        0 <= k <= a.len(),
    ensures
        first_eq(e, k) == a.len(),
    decreases a.len() - k,
{
    assert(e.len() == a.len() + 1 + b.len());
    if k == a.len() {
        assert(e[k] == '=');
    } else {
        assert(e[k] == a[k]);
        if e[k] == '=' {
            assert(a.contains('=')) by {
                assert(a[k] == '=');
            }
        }
        lemma_first_eq_split(e, a, b, k + 1);
    }
}

proof fn lemma_first_eq_none(e: Seq<char>, k: int)
    requires
        !e.contains('='),
        0 <= k <= e.len(),
    ensures
        first_eq(e, k) == -1,
    decreases e.len() - k,
{
    if k < e.len() {
        assert(e[k] != '=');
        lemma_first_eq_none(e, k + 1);
    }
}

/// A finished search-path element survives any evolution of the arenas.
proof fn lemma_elem_preserved(pre: Eval, post: Eval, t: usize, e: Seq<char>)
    requires
        Eval::evolves(pre, post),
        nix_path_elem(pre.tv(), t, e),
    ensures
        nix_path_elem(post.tv(), t, e),
{
    assert(pre.tv()[t as int] == pre.thunks@[t as int]@);
    assert(post.thunks@[t as int]@ == pre.thunks@[t as int]@);
    assert(post.tv()[t as int] == post.thunks@[t as int]@);
    match pre.tv()[t as int] {
        ThunkV::Done(v) => match v {
            ValueV::AttrSet(m) => {
                let tp = m["path"@];
                let tq = m["prefix"@];
                assert(pre.tv()[tp as int] == pre.thunks@[tp as int]@);
                assert(post.thunks@[tp as int]@ == pre.thunks@[tp as int]@);
                assert(post.tv()[tp as int] == post.thunks@[tp as int]@);
                assert(pre.tv()[tq as int] == pre.thunks@[tq as int]@);
                assert(post.thunks@[tq as int]@ == pre.thunks@[tq as int]@);
                assert(post.tv()[tq as int] == post.thunks@[tq as int]@);
            },
            _ => {},
        },
        _ => {},
    }
}

/// Builds the search-path value: one attribute set per entry, with its
/// `prefix` (the part before the first `=`, or empty) and its `path` (the
/// rest, or the whole entry). The entry list comes from the host's
/// environment, already split by [`parse_nix_path`].
pub fn mk_nix_path(ev: &mut Eval, entries: &Vec<String>) -> (r: Value)
    requires
        old(ev).wf(),
    ensures
        final(ev).wf(),
        Eval::evolves(*old(ev), *final(ev)),
        final(ev).value_ok(r),
        r@ is List,
        r@->List_0.len() == entries@.len(),
        forall|j: int|
            0 <= j < entries@.len() ==> nix_path_elem(
                final(ev).tv(),
                #[trigger] r@->List_0[j],
                entries@[j]@,
            ),
{
    let ghost s0 = *ev;
    let n = entries.len();
    let mut items: Vec<usize> = Vec::new();
    let mut i: usize = 0;
    while i < n
        invariant
            i <= n,
            n == entries@.len(),
            ev.wf(),
            Eval::evolves(s0, *ev),
            items@.len() == i,
            crate::attrs::ids_bounded(items@, ev.nthunks()),
            forall|j: int|
                0 <= j < i ==> nix_path_elem(ev.tv(), #[trigger] items@[j], entries@[j]@),
        decreases n - i,
    {
        let entry = &entries[i];
        let ghost e_v = entry@;
        let (prefix, path) = match break_str(entry.as_str(), '=') {
            Some((first, second)) => {
                proof {
                    lemma_first_eq_split(e_v, first@, second@, 0);
                    assert(e_v.subrange(0, first@.len() as int) =~= first@);
                    assert(e_v.subrange(first@.len() as int + 1, e_v.len() as int) =~= second@);
                }
                (first.to_owned(), second.to_owned())
            },
            None => {
                proof {
                    lemma_first_eq_none(e_v, 0);
                }
                (String::new(), entry.clone())
            },
        };
        proof {
            assert(prefix@ == entry_prefix(e_v) && path@ == entry_path(e_v));
            assert(e_v == entries@[i as int]@);
        }
        let ghost prefix_v = prefix@;
        let ghost path_v = path@;
        let ghost p1 = *ev;
        let tp = ev.new_value(Value::Str { string: path, context: PathSet::new() });
        let ghost p2 = *ev;
        let tq = ev.new_value(Value::Str { string: prefix, context: PathSet::new() });
        proof {
            Eval::lemma_evolves_trans(s0, p1, p2);
            Eval::lemma_evolves_trans(s0, p2, *ev);
        }
        let mut m = AttrMap::new();
        m.insert(String::from_str("path"), tp);
        m.insert(String::from_str("prefix"), tq);
        proof {
            assert(crate::attrs::attrs_bounded(m@, ev.nthunks())) by {
                assert forall|k: Seq<char>| m@.contains_key(k) implies #[trigger] m@[k]
                    < ev.nthunks() by {
                    assert(m@[k] == tp || m@[k] == tq);
                }
            }
            assert(crate::value::value_bounded(
                crate::value::ValueV::AttrSet(m@),
                ev.nthunks(),
                ev.nexprs(),
                ev.nscopes(),
            ));
        }
        let ghost p3 = *ev;
        let ghost items_pre = items@;
        let ghost mm = m@;
        let te = ev.new_value(Value::AttrSet(m));
        proof {
            Eval::lemma_evolves_trans(s0, p3, *ev);
            crate::attrs::lemma_ids_bounded_mono(items_pre, p3.nthunks(), ev.nthunks());
        }
        items.push(te);
        proof {
            assert(crate::attrs::ids_bounded(items@, ev.nthunks())) by {
                assert forall|jj: int| 0 <= jj < items@.len() implies #[trigger] items@[jj]
                    < ev.nthunks() by {
                    if jj < items@.len() - 1 {
                        assert(items@[jj] == items_pre[jj]);
                    }
                }
            }
            reveal_strlit("prefix");
            reveal_strlit("path");
            assert(("prefix")@.len() == 6 && ("path")@.len() == 4);
            assert(mm["path"@] == tp && mm["prefix"@] == tq);
            assert(mm.dom() =~= Set::<Seq<char>>::empty().insert("prefix"@).insert("path"@));
            // The three freshly filled thunks survive each later allocation.
            assert(p2.tv()[tp as int] == ThunkV::Done(
                ValueV::Str { string: path_v, context: Set::empty() },
            ));
            assert(p2.thunks@[tp as int]@ == p2.tv()[tp as int]);
            assert(p3.thunks@[tp as int]@ == p2.thunks@[tp as int]@);
            assert(ev.thunks@[tp as int]@ == p3.thunks@[tp as int]@);
            assert(ev.tv()[tp as int] == ev.thunks@[tp as int]@);
            assert(p3.tv()[tq as int] == ThunkV::Done(
                ValueV::Str { string: prefix_v, context: Set::empty() },
            ));
            assert(p3.thunks@[tq as int]@ == p3.tv()[tq as int]);
            assert(ev.thunks@[tq as int]@ == p3.thunks@[tq as int]@);
            assert(ev.tv()[tq as int] == ev.thunks@[tq as int]@);
            assert(ev.tv()[te as int] == ThunkV::Done(ValueV::AttrSet(mm)));
            assert(nix_path_elem(ev.tv(), te, entries@[i as int]@)) by {
                assert(done_str(ev.tv(), tp, entry_path(e_v)));
                assert(done_str(ev.tv(), tq, entry_prefix(e_v)));
            }
            assert(Eval::evolves(p1, *ev)) by {
                Eval::lemma_evolves_trans(p1, p2, p3);
                Eval::lemma_evolves_trans(p1, p3, *ev);
            }
            assert forall|j: int| 0 <= j < items@.len() implies nix_path_elem(
                ev.tv(),
                #[trigger] items@[j],
                entries@[j]@,
            ) by {
                if j < items@.len() - 1 {
                    assert(items@[j] == items_pre[j]);
                    lemma_elem_preserved(p1, *ev, items_pre[j], entries@[j]@);
                } else {
                    assert(items@[j] == te);
                }
            }
        }
        i = i + 1;
    }
    Value::List(items)
}

/// One probe a host performs to resolve a search-path reference.
#[derive(Debug)]
pub enum SearchStep {
    /// Test whether this path exists; if it does, it is the answer.
    CheckPath(String),
    /// List this directory; an entry named `name` answers, extended by
    /// `rest` when it is not empty.
    ScanDir { dir: String, name: String, rest: String },
}

/// The model of one probe.
#[verifier::ext_equal]
pub enum StepV {
    CheckPath(Seq<char>),
    ScanDir { dir: Seq<char>, name: Seq<char>, rest: Seq<char> },
}

impl View for SearchStep {
    type V = StepV;

    open spec fn view(&self) -> StepV {
        match self {
            SearchStep::CheckPath(p) => StepV::CheckPath(p@),
            SearchStep::ScanDir { dir, name, rest } => StepV::ScanDir {
                dir: dir@,
                name: name@,
                rest: rest@,
            },
        }
    }
}

/// The models of a plan, elementwise.
pub open spec fn steps_v(steps: Seq<SearchStep>) -> Seq<StepV> {
    Seq::new(steps.len(), |i: int| steps[i]@)
}

/// The texts of a prefix/path entry list, elementwise.
pub open spec fn entries_v(entries: Seq<(String, String)>) -> Seq<(Seq<char>, Seq<char>)> {
    Seq::new(entries.len(), |i: int| (entries[i].0@, entries[i].1@))
}

/// The probe one entry contributes for `<key/rest>`: a matching prefix
/// asks for a direct check of the entry's path extended by the rest, an
/// empty prefix asks for a directory scan, and any other entry nothing.
pub open spec fn step_for(
    prefix: Seq<char>,
    path: Seq<char>,
    key: Seq<char>,
    rest: Seq<char>,
) -> Option<StepV> {
    if prefix == key {
        Some(
            StepV::CheckPath(
                if rest.len() > 0 {
                    crate::operators::path_join(path, rest)
                } else {
                    path
                },
            ),
        )
    } else if prefix.len() == 0 {
        Some(StepV::ScanDir { dir: path, name: key, rest })
    } else {
        None
    }
}

/// The probes of all entries, in entry order.
pub open spec fn plan_spec(
    entries: Seq<(Seq<char>, Seq<char>)>,
    key: Seq<char>,
    rest: Seq<char>,
) -> Seq<StepV>
    decreases entries.len(),
{
    if entries.len() == 0 {
        Seq::empty()
    } else {
        plan_spec(entries.drop_last(), key, rest) + (match step_for(
            entries.last().0,
            entries.last().1,
            key,
            rest,
        ) {
            Some(st) => seq![st],
            None => Seq::empty(),
        })
    }
}

/// Plans the probes that resolve `<key/rest>` against the search-path
/// entries: exactly one probe per matching or catch-all entry, in entry
/// order, as [`step_for`] assigns them.
pub fn find_file_plan(
    entries: &Vec<(String, String)>,
    key: &str,
    rest: &str,
) -> (r: Vec<SearchStep>)
    ensures
        steps_v(r@) == plan_spec(entries_v(entries@), key@, rest@),
{
    let n = entries.len();
    let mut steps: Vec<SearchStep> = Vec::new();
    proof {
        assert(entries_v(entries@).take(0) =~= Seq::<(Seq<char>, Seq<char>)>::empty());
        assert(steps_v(steps@) =~= plan_spec(entries_v(entries@).take(0), key@, rest@));
    }
    let mut i: usize = 0;
    while i < n
        invariant
            i <= n,
            n == entries@.len(),
            steps_v(steps@) == plan_spec(entries_v(entries@).take(i as int), key@, rest@),
        decreases n - i,
    {
        let ghost pre = steps@;
        let (prefix, path) = (&entries[i].0, &entries[i].1);
        if str_eq(prefix.as_str(), key) {
            let full = if rest.unicode_len() > 0 {
                crate::operators::join_two(path, rest)
            } else {
                path.clone()
            };
            steps.push(SearchStep::CheckPath(full));
        } else if prefix.as_str().unicode_len() == 0 {
            steps.push(
                SearchStep::ScanDir { dir: path.clone(), name: key.to_owned(), rest: rest.to_owned() },
            );
        }
        proof {
            let ev = entries_v(entries@);
            assert(ev.take(i + 1).drop_last() =~= ev.take(i as int));
            assert(ev.take(i + 1).last() == ev[i as int]);
            assert(ev[i as int] == (entries@[i as int].0@, entries@[i as int].1@));
            assert(steps_v(steps@) =~= plan_spec(ev.take(i + 1), key@, rest@));
        }
        i = i + 1;
    }
    proof {
        assert(entries_v(entries@).take(n as int) =~= entries_v(entries@));
    }
    steps
}

} // verus!
