//! The page-specific extraction functions. Each is a pure function of the
//! parse tree and the decoded text, specified exactly by a spec-level twin,
//! and each reports failure through the discriminated [`ExtractError`]
//! outcome instead of aborting: the favorites page signals an authentication
//! wall explicitly, and the torrent page signals a row that its pattern
//! cannot read.

use vstd::prelude::*;
use crate::dom::Node;
use crate::dom::Tree;
use crate::dom::by_class_s;
use crate::dom::by_tag_s;
use crate::dom::collect_tag_s;
use crate::dom::content_text;
use crate::dom::content_text_s;
use crate::dom::elements_by_class;
use crate::dom::elements_by_tag;
use crate::dom::inner_text;
use crate::dom::inner_text_s;
use crate::dom::tag_descendants;
use crate::dom::tree_wf;
use crate::ext::captures_of;
use crate::ext::chars_of_str;
use crate::ext::regex_captures;
use crate::ext::unescape_chars;
use crate::ext::unescaped_of;
use crate::records::ExtractError;
use crate::records::FavRecord;
use crate::records::LimitsRecord;
use crate::records::Torrent;
use crate::text::contains_chars;
use crate::text::contains_seq;
use crate::text::parse_i32_chars;
use crate::text::parse_i32_spec;
use crate::text::sub_chars;
use crate::text::trim_chars;
use crate::text::trim_spec;

verus! {

/// The page-body marker of a login wall on the favorites page.
pub open spec fn login_marker() -> Seq<char> {
    "This page requires you to log on."@
}

/// The class naming a favorite slot on the favorites page.
pub open spec fn fp_class() -> Seq<char> {
    "fp"@
}

/// The class naming the quota box on the home page.
pub open spec fn homebox_class() -> Seq<char> {
    "homebox"@
}

pub open spec fn strong_tag() -> Seq<char> {
    "strong"@
}

pub open spec fn table_tag() -> Seq<char> {
    "table"@
}

/// Marker of a removed torrent row, which is skipped.
pub open spec fn expunged_marker() -> Seq<char> {
    "Expunged"@
}

/// The pattern reading the eight fields of one torrent row.
pub open spec fn torrent_pattern() -> Seq<char> {
    "</span> ([0-9-]+) [0-9:]+</td>[\\s\\S]+</span> ([0-9.]+ [KMGT]iB)</td>[\\s\\S]+</span> ([0-9]+)</td>[\\s\\S]+</span> ([0-9]+)</td>[\\s\\S]+</span> ([0-9]+)</td>[\\s\\S]+</span>([^<]+)</td>[\\s\\S]+onclick=\"document.location='([^\"]+)'[^<]+>([^<]+)</a>"@
}

/// Copy of a character vector.
fn copy_chars(v: &Vec<char>) -> (r: Vec<char>)
    ensures
        r@ == v@,
{
    let r = sub_chars(v, 0, v.len());
    assert(v@.subrange(0, v@.len() as int) =~= v@);
    r
}

/// What one favorite slot yields: its trimmed, unescaped category text, its
/// decimal count, and its own character data — or nothing where any of the
/// three is missing, in which case the slot is passed over.
pub open spec fn fav_entry_s(t: Tree, text: Seq<char>, i: int) -> Option<
    (Seq<char>, i32, Seq<char>),
> {
    if 0 <= i < t.nodes@.len() {
        match t.nodes@[i] {
            Node::Element { children, .. } => {
                if children@.len() >= 6 {
                    let count_txt = inner_text_s(t, text, children@[1] as int);
                    let cat_raw = inner_text_s(t, text, children@[5] as int);
                    match (parse_i32_spec(count_txt), unescaped_of(cat_raw)) {
                        (Some(cnt), Some(un)) => Some(
                            (trim_spec(un), cnt, inner_text_s(t, text, i)),
                        ),
                        _ => None,
                    }
                } else {
                    None
                }
            },
            Node::Text { .. } => None,
        }
    } else {
        None
    }
}

/// The slots among `es[0..k]` that yield an entry, in document order.
pub open spec fn fav_successes(t: Tree, text: Seq<char>, es: Seq<usize>, k: int) -> Seq<
    (Seq<char>, i32, Seq<char>),
>
    decreases k,
{
    if k <= 0 {
        Seq::empty()
    } else {
        let prev = fav_successes(t, text, es, k - 1);
        match fav_entry_s(t, text, es[k - 1] as int) {
            Some(e) => prev.push(e),
            None => prev,
        }
    }
}

/// What favorites extraction returns: the authentication fault on the login
/// marker; otherwise the first ten extractable slots as (categories, counts,
/// entry texts), or "not applicable" where fewer than ten slots yield. The
/// ten-slot rule is this page's deliberate business rule: slots are taken in
/// document order, a slot whose fields do not read back is passed over, and
/// the page succeeds exactly when ten slots yield.
pub open spec fn fav_spec(t: Tree, text: Seq<char>) -> Result<
    (Seq<Seq<char>>, Seq<i32>, Seq<Seq<char>>),
    ExtractError,
> {
    if contains_seq(text, login_marker()) {
        Result::Err(ExtractError::AuthRequired)
    } else {
        let es = by_class_s(t, text, fp_class());
        let sx = fav_successes(t, text, es, es.len() as int);
        if sx.len() >= 10 {
            let picked = sx.take(10);
            Result::Ok(
                (
                    picked.map_values(|e: (Seq<char>, i32, Seq<char>)| e.0),
                    picked.map_values(|e: (Seq<char>, i32, Seq<char>)| e.1),
                    picked.map_values(|e: (Seq<char>, i32, Seq<char>)| e.2),
                ),
            )
        } else {
            Result::Err(ExtractError::NotApplicable)
        }
    }
}

proof fn lemma_torrent_fold_err(t: Tree, text: Seq<char>, es: Seq<usize>, k1: int, k2: int)
    requires
        0 <= k1 <= k2,
        torrent_fold(t, text, es, k1) is Err,
    ensures
        torrent_fold(t, text, es, k2) == torrent_fold(t, text, es, k1),
    decreases k2 - k1,
{
    if k1 < k2 {
        lemma_torrent_fold_err(t, text, es, k1, k2 - 1);
    }
}

proof fn lemma_fav_successes_prefix(t: Tree, text: Seq<char>, es: Seq<usize>, k1: int, k2: int)
    requires
        0 <= k1 <= k2,
    ensures
        fav_successes(t, text, es, k1).is_prefix_of(fav_successes(t, text, es, k2)),
    decreases k2 - k1,
{
    if k1 < k2 {
        lemma_fav_successes_prefix(t, text, es, k1, k2 - 1);
        let p1 = fav_successes(t, text, es, k1);
        let p2 = fav_successes(t, text, es, k2 - 1);
        let p3 = fav_successes(t, text, es, k2);
        assert(p1.is_prefix_of(p2));
        match fav_entry_s(t, text, es[k2 - 1] as int) {
            Some(e) => {
                assert(p3 == p2.push(e));
                assert(p1 =~= p3.subrange(0, p1.len() as int));
            },
            None => {},
        }
    }
}

/// Executable side of [`fav_entry_s`].
fn fav_entry(t: &Tree, text: &Vec<char>, i: usize) -> (r: Option<(Vec<char>, i32, Vec<char>)>)
    requires
        tree_wf(*t, text@.len() as int),
        i < t.nodes@.len(),
    ensures
        r is Some <==> fav_entry_s(*t, text@, i as int) is Some,
        r is Some ==> {
            let e = fav_entry_s(*t, text@, i as int)->0;
            (r->0).0@ == e.0 && (r->0).1 == e.1 && (r->0).2@ == e.2
        },
{
    match &t.nodes[i] {
        Node::Element { children, .. } => {
            if children.len() >= 6 {
                let c1 = children[1];
                let c5 = children[5];
                assert((c1 as int) < i && (c5 as int) < i);
                let count_txt = inner_text(t, text, c1);
                match parse_i32_chars(&count_txt) {
                    Some(cnt) => {
                        let cat_raw = inner_text(t, text, c5);
                        match unescape_chars(&cat_raw) {
                            Some(un) => {
                                let cat = trim_chars(&un);
                                let entry = inner_text(t, text, i);
                                Some((cat, cnt, entry))
                            },
                            None => None,
                        }
                    },
                    None => None,
                }
            } else {
                None
            }
        },
        Node::Text { .. } => None,
    }
}

/// Favorites extraction; the executable side of [`fav_spec`]. On success
/// each of the three arrays holds exactly ten entries.
pub fn extract_fav(t: &Tree, text: &Vec<char>) -> (res: Result<FavRecord, ExtractError>)
    requires
        tree_wf(*t, text@.len() as int),
    ensures
        res is Ok <==> fav_spec(*t, text@) is Ok,
        res is Err ==> res->Err_0 == fav_spec(*t, text@)->Err_0,
        res is Ok ==> {
            let ok = fav_spec(*t, text@)->Ok_0;
            &&& crate::encode::views_of(res->Ok_0.cat_array@) == ok.0
            &&& res->Ok_0.count_array@ == ok.1
            &&& crate::encode::views_of(res->Ok_0.entries@) == ok.2
            &&& res->Ok_0.cat_array@.len() == 10
            &&& res->Ok_0.count_array@.len() == 10
            &&& res->Ok_0.entries@.len() == 10
        },
        contains_seq(text@, login_marker()) ==> res == Result::<FavRecord, ExtractError>::Err(
            ExtractError::AuthRequired,
        ),
{
    let marker = chars_of_str("This page requires you to log on.");
    if contains_chars(text, &marker) {
        return Result::Err(ExtractError::AuthRequired);
    }
    let fp = chars_of_str("fp");
    let es = elements_by_class(t, text, &fp);
    let mut cats: Vec<Vec<char>> = Vec::new();
    let mut counts: Vec<i32> = Vec::new();
    let mut entries: Vec<Vec<char>> = Vec::new();
    let mut k: usize = 0;
    while k < es.len() && cats.len() < 10
        invariant
            tree_wf(*t, text@.len() as int),
            es@ == by_class_s(*t, text@, fp_class()),
            forall|j: int| 0 <= j < es@.len() ==> (#[trigger] es@[j] as int) < t.nodes@.len(),
            k <= es@.len(),
            cats@.len() == counts@.len() == entries@.len(),
            cats@.len() <= 10,
            fav_successes(*t, text@, es@, k as int).len() == cats@.len(),
            forall|m: int|
                0 <= m < cats@.len() ==> (#[trigger] cats@[m])@ == fav_successes(
                    *t,
                    text@,
                    es@,
                    k as int,
                )[m].0,
            forall|m: int|
                0 <= m < counts@.len() ==> #[trigger] counts@[m] == fav_successes(
                    *t,
                    text@,
                    es@,
                    k as int,
                )[m].1,
            forall|m: int|
                0 <= m < entries@.len() ==> (#[trigger] entries@[m])@ == fav_successes(
                    *t,
                    text@,
                    es@,
                    k as int,
                )[m].2,
        decreases es@.len() - k,
    {
        match fav_entry(t, text, es[k]) {
            Some(e) => {
                cats.push(e.0);
                counts.push(e.1);
                entries.push(e.2);
            },
            None => {},
        }
        k = k + 1;
        assert(fav_successes(*t, text@, es@, k as int).len() == cats@.len());
    }
    let ghost sx_k = fav_successes(*t, text@, es@, k as int);
    let ghost sx = fav_successes(*t, text@, es@, es@.len() as int);
    proof {
        lemma_fav_successes_prefix(*t, text@, es@, k as int, es@.len() as int);
    }
    if counts.len() == 10 {
        proof {
            assert(sx_k.len() == 10);
            assert(sx_k =~= sx.subrange(0, 10));
            assert(sx.len() >= 10);
            let picked = sx.take(10);
            assert(picked =~= sx_k);
            assert(crate::encode::views_of(cats@) =~= picked.map_values(
                |e: (Seq<char>, i32, Seq<char>)| e.0,
            ));
            assert(counts@ =~= picked.map_values(|e: (Seq<char>, i32, Seq<char>)| e.1));
            assert(crate::encode::views_of(entries@) =~= picked.map_values(
                |e: (Seq<char>, i32, Seq<char>)| e.2,
            ));
        }
        Result::Ok(FavRecord { cat_array: cats, count_array: counts, entries })
    } else {
        proof {
            assert(k == es@.len());
            assert(sx.len() == cats@.len() < 10);
        }
        Result::Err(ExtractError::NotApplicable)
    }
}

/// The values of the readable numeric tokens among `es[0..k]`.
pub open spec fn strong_values(t: Tree, text: Seq<char>, es: Seq<usize>, k: int) -> Seq<i32>
    decreases k,
{
    if k <= 0 {
        Seq::empty()
    } else {
        let prev = strong_values(t, text, es, k - 1);
        match parse_i32_spec(inner_text_s(t, text, es[k - 1] as int)) {
            Some(v) => prev.push(v),
            None => prev,
        }
    }
}

/// What quota extraction returns: the first three numeric `strong` tokens
/// of the first `homebox` element as (current, maximum, reset cost); a
/// missing box or fewer than three readable numbers is a malformed-page
/// fault, as a real quota page never lacks them.
pub open spec fn limits_spec(t: Tree, text: Seq<char>) -> Result<LimitsRecord, ExtractError> {
    let hbs = by_class_s(t, text, homebox_class());
    if hbs.len() == 0 {
        Result::Err(ExtractError::Malformed)
    } else {
        let ss = collect_tag_s(t, text, strong_tag(), hbs[0] as int);
        let vals = strong_values(t, text, ss, ss.len() as int);
        if vals.len() >= 3 {
            Result::Ok(LimitsRecord { current: vals[0], maximum: vals[1], reset_cost: vals[2] })
        } else {
            Result::Err(ExtractError::Malformed)
        }
    }
}

/// Quota extraction; the executable side of [`limits_spec`].
pub fn extract_limits(t: &Tree, text: &Vec<char>) -> (res: Result<LimitsRecord, ExtractError>)
    requires
        tree_wf(*t, text@.len() as int),
    ensures
        res == limits_spec(*t, text@),
{
    let hb = chars_of_str("homebox");
    let hbs = elements_by_class(t, text, &hb);
    if hbs.len() == 0 {
        return Result::Err(ExtractError::Malformed);
    }
    let strong = chars_of_str("strong");
    let ss = tag_descendants(t, text, &strong, hbs[0]);
    let ghost ss_spec = collect_tag_s(*t, text@, strong_tag(), hbs@[0] as int);
    proof {
        crate::dom::lemma_collect_tag_in_bounds(*t, text@, strong_tag(), hbs@[0] as int);
    }
    let mut vals: Vec<i32> = Vec::new();
    let mut k: usize = 0;
    while k < ss.len()
        invariant
            tree_wf(*t, text@.len() as int),
            ss@ == ss_spec,
            forall|j: int| 0 <= j < ss@.len() ==> (#[trigger] ss@[j] as int) < t.nodes@.len(),
            k <= ss@.len(),
            vals@ == strong_values(*t, text@, ss@, k as int),
        decreases ss@.len() - k,
    {
        let txt = inner_text(t, text, ss[k]);
        match parse_i32_chars(&txt) {
            Some(v) => {
                vals.push(v);
            },
            None => {},
        }
        k = k + 1;
    }
    if vals.len() >= 3 {
        Result::Ok(LimitsRecord { current: vals[0], maximum: vals[1], reset_cost: vals[2] })
    } else {
        Result::Err(ExtractError::Malformed)
    }
}

/// Ghost image of one torrent row.
pub ghost struct TorrentView {
    pub posted: Seq<char>,
    pub size: Seq<char>,
    pub seeds: i32,
    pub peers: i32,
    pub downloads: i32,
    pub url: Seq<char>,
    pub name: Seq<char>,
}

pub open spec fn torrent_view(x: Torrent) -> TorrentView {
    TorrentView {
        posted: x.posted@,
        size: x.size@,
        seeds: x.seeds,
        peers: x.peers,
        downloads: x.downloads,
        url: x.url@,
        name: x.name@,
    }
}

pub open spec fn torrent_views(l: Seq<Torrent>) -> Seq<TorrentView> {
    l.map_values(|x: Torrent| torrent_view(x))
}

/// What one table yields: nothing for a removed row, a hard fault where the
/// row pattern finds no match, and otherwise the row — passed over where a
/// field does not read back.
pub open spec fn torrent_row_s(t: Tree, text: Seq<char>, i: int) -> Result<
    Option<TorrentView>,
    ExtractError,
> {
    let html = content_text_s(t, text, i);
    if contains_seq(html, expunged_marker()) {
        Result::Ok(None)
    } else {
        match captures_of(torrent_pattern(), html) {
            None => Result::Err(ExtractError::Malformed),
            Some(g) => if g.len() < 9 {
                Result::Err(ExtractError::Malformed)
            } else {
                match (
                    unescaped_of(g[8]),
                    parse_i32_spec(g[3]),
                    parse_i32_spec(g[4]),
                    parse_i32_spec(g[5]),
                ) {
                    (Some(nm), Some(se), Some(pe), Some(dl)) => Result::Ok(
                        Some(
                            TorrentView {
                                posted: g[1],
                                size: g[2],
                                seeds: se,
                                peers: pe,
                                downloads: dl,
                                url: g[7],
                                name: nm,
                            },
                        ),
                    ),
                    _ => Result::Ok(None),
                }
            },
        }
    }
}

/// The rows of the tables `es[0..k]`, first fault wins.
pub open spec fn torrent_fold(t: Tree, text: Seq<char>, es: Seq<usize>, k: int) -> Result<
    Seq<TorrentView>,
    ExtractError,
>
    decreases k,
{
    if k <= 0 {
        Result::Ok(Seq::empty())
    } else {
        match torrent_fold(t, text, es, k - 1) {
            Result::Err(e) => Result::Err(e),
            Result::Ok(prev) => match torrent_row_s(t, text, es[k - 1] as int) {
                Result::Err(e) => Result::Err(e),
                Result::Ok(None) => Result::Ok(prev),
                Result::Ok(Some(tv)) => Result::Ok(prev.push(tv)),
            },
        }
    }
}

/// What torrent extraction returns: the readable rows of every table of the
/// page, in document order.
pub open spec fn torrent_spec(t: Tree, text: Seq<char>) -> Result<Seq<TorrentView>, ExtractError> {
    let es = by_tag_s(t, text, table_tag());
    torrent_fold(t, text, es, es.len() as int)
}

/// Torrent extraction; the executable side of [`torrent_spec`].
pub fn extract_torrents(t: &Tree, text: &Vec<char>) -> (res: Result<Vec<Torrent>, ExtractError>)
    requires
        tree_wf(*t, text@.len() as int),
    ensures
        res is Ok <==> torrent_spec(*t, text@) is Ok,
        res is Ok ==> torrent_views(res->Ok_0@) == torrent_spec(*t, text@)->Ok_0,
        res is Err ==> res->Err_0 == torrent_spec(*t, text@)->Err_0,
{
    let pattern = chars_of_str(
        "</span> ([0-9-]+) [0-9:]+</td>[\\s\\S]+</span> ([0-9.]+ [KMGT]iB)</td>[\\s\\S]+</span> ([0-9]+)</td>[\\s\\S]+</span> ([0-9]+)</td>[\\s\\S]+</span> ([0-9]+)</td>[\\s\\S]+</span>([^<]+)</td>[\\s\\S]+onclick=\"document.location='([^\"]+)'[^<]+>([^<]+)</a>",
    );
    let expunged = chars_of_str("Expunged");
    let tab = chars_of_str("table");
    let es = elements_by_tag(t, text, &tab);
    let mut out: Vec<Torrent> = Vec::new();
    let mut k: usize = 0;
    assert(torrent_views(out@) =~= Seq::<TorrentView>::empty());
    while k < es.len()
        invariant
            tree_wf(*t, text@.len() as int),
            pattern@ == torrent_pattern(),
            expunged@ == expunged_marker(),
            es@ == by_tag_s(*t, text@, table_tag()),
            forall|j: int| 0 <= j < es@.len() ==> (#[trigger] es@[j] as int) < t.nodes@.len(),
            k <= es@.len(),
            torrent_fold(*t, text@, es@, k as int) == Result::<Seq<TorrentView>, ExtractError>::Ok(
                torrent_views(out@),
            ),
        decreases es@.len() - k,
    {
        let ghost prev = torrent_views(out@);
        let html = content_text(t, text, es[k]);
        if !contains_chars(&html, &expunged) {
            match regex_captures(&pattern, &html) {
                None => {
                    proof {
                        assert(torrent_fold(*t, text@, es@, k + 1) == Result::<
                            Seq<TorrentView>,
                            ExtractError,
                        >::Err(ExtractError::Malformed));
                        lemma_torrent_fold_err(*t, text@, es@, k + 1, es@.len() as int);
                    }
                    return Result::Err(ExtractError::Malformed);
                },
                Some(g) => {
                    if g.len() < 9 {
                        proof {
                            assert(crate::encode::views_of(g@).len() == g@.len());
                            assert(torrent_fold(*t, text@, es@, k + 1) == Result::<
                                Seq<TorrentView>,
                                ExtractError,
                            >::Err(ExtractError::Malformed));
                            lemma_torrent_fold_err(*t, text@, es@, k + 1, es@.len() as int);
                        }
                        return Result::Err(ExtractError::Malformed);
                    }
                    assert(crate::encode::views_of(g@) == captures_of(
                        torrent_pattern(),
                        content_text_s(*t, text@, es@[k as int] as int),
                    )->0);
                    match unescape_chars(&g[8]) {
                        Some(nm) => {
                            match (parse_i32_chars(&g[3]), parse_i32_chars(&g[4]), parse_i32_chars(
                                &g[5],
                            )) {
                                (Some(se), Some(pe), Some(dl)) => {
                                    let row = Torrent {
                                        posted: copy_chars(&g[1]),
                                        size: copy_chars(&g[2]),
                                        seeds: se,
                                        peers: pe,
                                        downloads: dl,
                                        url: copy_chars(&g[7]),
                                        name: nm,
                                    };
                                    out.push(row);
                                    proof {
                                        assert(torrent_views(out@) =~= prev.push(
                                            torrent_view(out@.last()),
                                        ));
                                    }
                                },
                                _ => {},
                            }
                        },
                        None => {},
                    }
                },
            }
        }
        k = k + 1;
        assert(torrent_fold(*t, text@, es@, k as int) == Result::<
            Seq<TorrentView>,
            ExtractError,
        >::Ok(torrent_views(out@)));
    }
    Result::Ok(out)
}

} // verus!
