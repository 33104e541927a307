//! The marshal-in-place harness: one boundary call. The host hands over the
//! shared buffer and a logical length; the harness decodes that prefix as
//! UTF-8, tokenizes it into the per-call parse tree, runs the page-specific
//! extraction function, serializes the result back into the same buffer, and
//! returns the single status code. Reading is finished before the first byte
//! is written — the decoded text and the tree are built from the prefix
//! before serialization starts at offset zero — and no failure ever leaves
//! partial output: on every negative status the buffer is unchanged.
//!
//! The outcome clause ties the whole call down: whenever the input decodes
//! and tokenizes, the status and the buffer equal `status_of` and
//! `buffer_after` of `outcome_of` over a tree carrying exactly the
//! tokenizer's image, so every sentinel — not-applicable, too-large, fault —
//! and every success byte count is owed, not merely permitted.

use vstd::prelude::*;
use vstd::slice::slice_subrange;
use vstd::utf8::decode_utf8;
use vstd::utf8::valid_utf8;
use crate::STATUS_FAULT;
use crate::STATUS_TOO_LARGE;
use crate::dom::Tree;
use crate::dom::nodes_view;
use crate::dom::roots_view;
use crate::dom::tokenize;
use crate::dom::tokenize_spec;
use crate::dom::tree_wf;
use crate::encode::enc_torrent;
use crate::encode::enc_torrent_items;
use crate::encode::encoding_of;
use crate::encode::views_of;
use crate::ext::decode_utf8_chars;
use crate::extract::extract_fav;
use crate::extract::extract_limits;
use crate::extract::extract_torrents;
use crate::extract::fav_spec;
use crate::extract::limits_spec;
use crate::extract::login_marker;
use crate::extract::torrent_spec;
use crate::extract::torrent_view;
use crate::extract::torrent_views;
use crate::marshal::buffer_after;
use crate::marshal::marshal_result;
use crate::marshal::status_of;
use crate::records::ExtractError;
use crate::records::ExtractionResult;
use crate::records::FavRecord;
use crate::records::Torrent;
use crate::text::contains_seq;

verus! {

/// Which page-specific extraction function a boundary call runs.
pub enum PageKind {
    Favorites,
    ImageLimits,
    TorrentList,
}

/// The record shape owed by each page kind on success.
pub open spec fn result_shape(kind: PageKind, r: ExtractionResult) -> bool {
    match kind {
        PageKind::Favorites => r matches ExtractionResult::Fav(f) && f.cat_array@.len() == 10
            && f.count_array@.len() == 10 && f.entries@.len() == 10,
        PageKind::ImageLimits => r is Limits,
        PageKind::TorrentList => r is Torrents,
    }
}

/// The input text of a call: the UTF-8 decoding of the buffer's
/// logical-length prefix.
pub open spec fn input_chars(buf: Seq<u8>, limit: int) -> Seq<char> {
    decode_utf8(buf.subrange(0, limit))
}

/// A favorites record carrying exactly the field views that [`fav_spec`]
/// owes; the encoding depends on those views alone, so any such record
/// stands for the outcome.
pub open spec fn fav_record_of(t: Tree, text: Seq<char>) -> FavRecord {
    choose|f: FavRecord|
        views_of(f.cat_array@) == (fav_spec(t, text)->Ok_0).0 && f.count_array@ == (fav_spec(
            t,
            text,
        )->Ok_0).1 && views_of(f.entries@) == (fav_spec(t, text)->Ok_0).2
}

/// A torrent list carrying exactly the row views that [`torrent_spec`]
/// owes.
pub open spec fn torrents_record_of(t: Tree, text: Seq<char>) -> Vec<Torrent> {
    choose|ts: Vec<Torrent>| torrent_views(ts@) == torrent_spec(t, text)->Ok_0
}

/// The extraction outcome owed for tree `t` and `text` under `kind`: the
/// spec twins' result, packaged as a record value for the marshal-stage
/// specs [`status_of`] and [`buffer_after`] to consume.
pub open spec fn outcome_of(kind: PageKind, t: Tree, text: Seq<char>) -> Result<
    ExtractionResult,
    ExtractError,
> {
    match kind {
        PageKind::Favorites => match fav_spec(t, text) {
            Result::Ok(_) => Result::Ok(ExtractionResult::Fav(fav_record_of(t, text))),
            Result::Err(e) => Result::Err(e),
        },
        PageKind::ImageLimits => match limits_spec(t, text) {
            Result::Ok(l) => Result::Ok(ExtractionResult::Limits(l)),
            Result::Err(e) => Result::Err(e),
        },
        PageKind::TorrentList => match torrent_spec(t, text) {
            Result::Ok(_) => Result::Ok(ExtractionResult::Torrents(torrents_record_of(t, text))),
            Result::Err(e) => Result::Err(e),
        },
    }
}

/// Records with equal encodings marshal identically.
proof fn lemma_marshal_congruent(r1: ExtractionResult, r2: ExtractionResult, buf: Seq<u8>)
    requires
        encoding_of(r1) == encoding_of(r2),
    ensures
        status_of(Result::Ok(r1), buf.len() as int) == status_of(Result::Ok(r2), buf.len() as int),
        buffer_after(Result::Ok(r1), buf) == buffer_after(Result::Ok(r2), buf),
{
}

/// The torrent-list item encoding depends on the rows' field views alone.
proof fn lemma_enc_items_congruent(l1: Seq<Torrent>, l2: Seq<Torrent>)
    requires
        torrent_views(l1) == torrent_views(l2),
    ensures
        enc_torrent_items(l1) == enc_torrent_items(l2),
    decreases l1.len(),
{
    assert(torrent_views(l1).len() == l1.len());
    assert(torrent_views(l2).len() == l2.len());
    if l1.len() > 0 {
        assert forall|m: int|
            0 <= m < l1.len() - 1 implies torrent_views(l1.drop_last())[m] == torrent_views(
            l2.drop_last(),
        )[m] by {
            assert(torrent_views(l1)[m] == torrent_view(l1[m]));
            assert(torrent_views(l2)[m] == torrent_view(l2[m]));
            assert(l1.drop_last()[m] == l1[m]);
            assert(l2.drop_last()[m] == l2[m]);
            assert(torrent_views(l1.drop_last())[m] == torrent_view(l1.drop_last()[m]));
            assert(torrent_views(l2.drop_last())[m] == torrent_view(l2.drop_last()[m]));
        }
        assert(torrent_views(l1.drop_last()) =~= torrent_views(l2.drop_last()));
        lemma_enc_items_congruent(l1.drop_last(), l2.drop_last());
        let last = l1.len() - 1;
        assert(torrent_views(l1)[last] == torrent_view(l1[last]));
        assert(torrent_views(l2)[last] == torrent_view(l2[last]));
        assert(torrent_view(l1.last()) == torrent_view(l2.last()));
        assert(enc_torrent(l1.last()) == enc_torrent(l2.last()));
    }
}

/// One boundary call over the shared buffer. `limit` is the logical length:
/// the number of buffer bytes that hold input text. A `limit` outside
/// `[0, capacity]`, input that is not valid UTF-8, and text that cannot be
/// tokenized yield the fault sentinel with the buffer untouched. Whenever
/// the input decodes and tokenizes, the status and the buffer are exactly
/// the marshaling of this page kind's extraction outcome over the tokenized
/// tree: the byte count of the record's encoding, now in the buffer prefix,
/// when it fits; the too-large sentinel with the buffer untouched when it
/// does not; the not-applicable sentinel for a page of the wrong shape; and
/// the fault sentinel for every hard extraction fault.
pub fn parse_marshal_inplace(kind: &PageKind, buf: &mut Vec<u8>, limit: i32) -> (status: i32)
    requires
        old(buf)@.len() <= i32::MAX,
    ensures
        final(buf)@.len() == old(buf)@.len(),
        status >= STATUS_TOO_LARGE,
        status >= 0 ==> status <= old(buf)@.len(),
        status < 0 ==> final(buf)@ == old(buf)@,
        !(0 <= limit && limit <= old(buf)@.len()) ==> status == STATUS_FAULT,
        0 <= limit <= old(buf)@.len() && !valid_utf8(old(buf)@.subrange(0, limit as int))
            ==> status == STATUS_FAULT,
        0 <= limit <= old(buf)@.len() && valid_utf8(old(buf)@.subrange(0, limit as int))
            && kind is Favorites && contains_seq(
            input_chars(old(buf)@, limit as int),
            login_marker(),
        ) ==> status == STATUS_FAULT,
        0 <= limit <= old(buf)@.len() && valid_utf8(old(buf)@.subrange(0, limit as int))
            && tokenize_spec(input_chars(old(buf)@, limit as int)) is Some ==> exists|t: Tree|
            {
                &&& tree_wf(t, input_chars(old(buf)@, limit as int).len() as int)
                &&& (nodes_view(t.nodes@), roots_view(t.roots@)) == (tokenize_spec(
                    input_chars(old(buf)@, limit as int),
                ))->0
                &&& status == status_of(
                    outcome_of(*kind, t, input_chars(old(buf)@, limit as int)),
                    old(buf)@.len() as int,
                )
                &&& final(buf)@ == buffer_after(
                    outcome_of(*kind, t, input_chars(old(buf)@, limit as int)),
                    old(buf)@,
                )
            },
        status >= 0 ==> exists|r: ExtractionResult|
            result_shape(*kind, r) && status == (#[trigger] encoding_of(r)).len()
                && final(buf)@.subrange(0, status as int) == encoding_of(r),
{
    let ghost buf0 = buf@;
    let cap = buf.len();
    if limit < 0 {
        return STATUS_FAULT;
    }
    let len = limit as usize;
    if len > cap {
        return STATUS_FAULT;
    }
    let input = slice_subrange(buf.as_slice(), 0, len);
    let ghost g_input = input@;
    assert(g_input == buf0.subrange(0, limit as int));
    let text = match decode_utf8_chars(input) {
        Some(tx) => tx,
        None => {
            assert(!valid_utf8(buf0.subrange(0, limit as int)));
            return STATUS_FAULT;
        },
    };
    assert(text@ == input_chars(buf0, limit as int));
    let tree = match tokenize(&text) {
        Some(tr) => tr,
        None => {
            assert(tokenize_spec(input_chars(buf0, limit as int)) is None);
            return STATUS_FAULT;
        },
    };
    let res: Result<ExtractionResult, ExtractError> = match kind {
        PageKind::Favorites => match extract_fav(&tree, &text) {
            Result::Ok(f) => {
                proof {
                    let ok = fav_spec(tree, text@)->Ok_0;
                    assert(views_of(f.cat_array@) == ok.0 && f.count_array@ == ok.1 && views_of(
                        f.entries@,
                    ) == ok.2);
                    let ch = fav_record_of(tree, text@);
                    assert(views_of(ch.cat_array@) == ok.0 && ch.count_array@ == ok.1 && views_of(
                        ch.entries@,
                    ) == ok.2);
                    assert(encoding_of(ExtractionResult::Fav(ch)) == encoding_of(
                        ExtractionResult::Fav(f),
                    ));
                    lemma_marshal_congruent(
                        ExtractionResult::Fav(ch),
                        ExtractionResult::Fav(f),
                        buf0,
                    );
                    assert(outcome_of(PageKind::Favorites, tree, text@) == Result::<
                        ExtractionResult,
                        ExtractError,
                    >::Ok(ExtractionResult::Fav(ch)));
                }
                Result::Ok(ExtractionResult::Fav(f))
            },
            Result::Err(e) => {
                assert(outcome_of(PageKind::Favorites, tree, text@) == Result::<
                    ExtractionResult,
                    ExtractError,
                >::Err(e));
                Result::Err(e)
            },
        },
        PageKind::ImageLimits => match extract_limits(&tree, &text) {
            Result::Ok(l) => {
                assert(outcome_of(PageKind::ImageLimits, tree, text@) == Result::<
                    ExtractionResult,
                    ExtractError,
                >::Ok(ExtractionResult::Limits(l)));
                Result::Ok(ExtractionResult::Limits(l))
            },
            Result::Err(e) => {
                assert(outcome_of(PageKind::ImageLimits, tree, text@) == Result::<
                    ExtractionResult,
                    ExtractError,
                >::Err(e));
                Result::Err(e)
            },
        },
        PageKind::TorrentList => match extract_torrents(&tree, &text) {
            Result::Ok(ts) => {
                proof {
                    let rows = torrent_spec(tree, text@)->Ok_0;
                    assert(torrent_views(ts@) == rows);
                    let ch = torrents_record_of(tree, text@);
                    assert(torrent_views(ch@) == rows);
                    lemma_enc_items_congruent(ch@, ts@);
                    assert(torrent_views(ch@).len() == ch@.len());
                    assert(torrent_views(ts@).len() == ts@.len());
                    assert(encoding_of(ExtractionResult::Torrents(ch)) == encoding_of(
                        ExtractionResult::Torrents(ts),
                    ));
                    lemma_marshal_congruent(
                        ExtractionResult::Torrents(ch),
                        ExtractionResult::Torrents(ts),
                        buf0,
                    );
                    assert(outcome_of(PageKind::TorrentList, tree, text@) == Result::<
                        ExtractionResult,
                        ExtractError,
                    >::Ok(ExtractionResult::Torrents(ch)));
                }
                Result::Ok(ExtractionResult::Torrents(ts))
            },
            Result::Err(e) => {
                assert(outcome_of(PageKind::TorrentList, tree, text@) == Result::<
                    ExtractionResult,
                    ExtractError,
                >::Err(e));
                Result::Err(e)
            },
        },
    };
    let status = marshal_result(&res, buf);
    proof {
        let g_text = input_chars(buf0, limit as int);
        let oc = outcome_of(*kind, tree, g_text);
        assert(status == status_of(oc, buf0.len() as int));
        assert(buf@ == buffer_after(oc, buf0));
        assert(tree_wf(tree, g_text.len() as int));
        assert((nodes_view(tree.nodes@), roots_view(tree.roots@)) == (tokenize_spec(g_text))->0);
        assert(exists|t: Tree|
            {
                &&& tree_wf(t, input_chars(buf0, limit as int).len() as int)
                &&& (nodes_view(t.nodes@), roots_view(t.roots@)) == (tokenize_spec(
                    input_chars(buf0, limit as int),
                ))->0
                &&& status == status_of(
                    outcome_of(*kind, t, input_chars(buf0, limit as int)),
                    buf0.len() as int,
                )
                &&& buf@ == buffer_after(outcome_of(*kind, t, input_chars(buf0, limit as int)), buf0)
            });
        if status >= 0 {
            let rr = res->Ok_0;
            assert(result_shape(*kind, rr));
            assert(status == encoding_of(rr).len());
            assert(buf@.subrange(0, status as int) == encoding_of(rr));
        }
    }
    status
}

/// Boundary entry for the favorites page: ten favorite slots with their
/// category names and counts, paired with the entry texts. An input holding
/// the login marker is an authentication fault folded into the fault
/// sentinel; the full outcome clause is inherited from
/// [`parse_marshal_inplace`].
#[allow(non_snake_case)]
pub fn parseFav(buf: &mut Vec<u8>, limit: i32) -> (status: i32)
    requires
        old(buf)@.len() <= i32::MAX,
    ensures
        final(buf)@.len() == old(buf)@.len(),
        status >= STATUS_TOO_LARGE,
        status >= 0 ==> status <= old(buf)@.len(),
        status < 0 ==> final(buf)@ == old(buf)@,
        !(0 <= limit && limit <= old(buf)@.len()) ==> status == STATUS_FAULT,
        0 <= limit <= old(buf)@.len() && !valid_utf8(old(buf)@.subrange(0, limit as int))
            ==> status == STATUS_FAULT,
        0 <= limit <= old(buf)@.len() && valid_utf8(old(buf)@.subrange(0, limit as int))
            && contains_seq(input_chars(old(buf)@, limit as int), login_marker())
            ==> status == STATUS_FAULT,
        0 <= limit <= old(buf)@.len() && valid_utf8(old(buf)@.subrange(0, limit as int))
            && tokenize_spec(input_chars(old(buf)@, limit as int)) is Some ==> exists|t: Tree|
            {
                &&& tree_wf(t, input_chars(old(buf)@, limit as int).len() as int)
                &&& (nodes_view(t.nodes@), roots_view(t.roots@)) == (tokenize_spec(
                    input_chars(old(buf)@, limit as int),
                ))->0
                &&& status == status_of(
                    outcome_of(PageKind::Favorites, t, input_chars(old(buf)@, limit as int)),
                    old(buf)@.len() as int,
                )
                &&& final(buf)@ == buffer_after(
                    outcome_of(PageKind::Favorites, t, input_chars(old(buf)@, limit as int)),
                    old(buf)@,
                )
            },
        status >= 0 ==> exists|r: ExtractionResult|
            result_shape(PageKind::Favorites, r) && status == (#[trigger] encoding_of(r)).len()
                && final(buf)@.subrange(0, status as int) == encoding_of(r),
{
    parse_marshal_inplace(&PageKind::Favorites, buf, limit)
}

/// Boundary entry for the home page's image quota counters; the full
/// outcome clause is inherited from [`parse_marshal_inplace`].
pub fn parse_image_limit(buf: &mut Vec<u8>, limit: i32) -> (status: i32)
    requires
        old(buf)@.len() <= i32::MAX,
    ensures
        final(buf)@.len() == old(buf)@.len(),
        status >= STATUS_TOO_LARGE,
        status >= 0 ==> status <= old(buf)@.len(),
        status < 0 ==> final(buf)@ == old(buf)@,
        !(0 <= limit && limit <= old(buf)@.len()) ==> status == STATUS_FAULT,
        0 <= limit <= old(buf)@.len() && !valid_utf8(old(buf)@.subrange(0, limit as int))
            ==> status == STATUS_FAULT,
        0 <= limit <= old(buf)@.len() && valid_utf8(old(buf)@.subrange(0, limit as int))
            && tokenize_spec(input_chars(old(buf)@, limit as int)) is Some ==> exists|t: Tree|
            {
                &&& tree_wf(t, input_chars(old(buf)@, limit as int).len() as int)
                &&& (nodes_view(t.nodes@), roots_view(t.roots@)) == (tokenize_spec(
                    input_chars(old(buf)@, limit as int),
                ))->0
                &&& status == status_of(
                    outcome_of(PageKind::ImageLimits, t, input_chars(old(buf)@, limit as int)),
                    old(buf)@.len() as int,
                )
                &&& final(buf)@ == buffer_after(
                    outcome_of(PageKind::ImageLimits, t, input_chars(old(buf)@, limit as int)),
                    old(buf)@,
                )
            },
        status >= 0 ==> exists|r: ExtractionResult|
            result_shape(PageKind::ImageLimits, r) && status == (#[trigger] encoding_of(r)).len()
                && final(buf)@.subrange(0, status as int) == encoding_of(r),
{
    parse_marshal_inplace(&PageKind::ImageLimits, buf, limit)
}

/// Boundary entry for the torrent listing page; the full outcome clause is
/// inherited from [`parse_marshal_inplace`].
#[allow(non_snake_case)]
pub fn parseTorrent(buf: &mut Vec<u8>, limit: i32) -> (status: i32)
    requires
        old(buf)@.len() <= i32::MAX,
    ensures
        final(buf)@.len() == old(buf)@.len(),
        status >= STATUS_TOO_LARGE,
        status >= 0 ==> status <= old(buf)@.len(),
        status < 0 ==> final(buf)@ == old(buf)@,
        !(0 <= limit && limit <= old(buf)@.len()) ==> status == STATUS_FAULT,
        0 <= limit <= old(buf)@.len() && !valid_utf8(old(buf)@.subrange(0, limit as int))
            ==> status == STATUS_FAULT,
        0 <= limit <= old(buf)@.len() && valid_utf8(old(buf)@.subrange(0, limit as int))
            && tokenize_spec(input_chars(old(buf)@, limit as int)) is Some ==> exists|t: Tree|
            {
                &&& tree_wf(t, input_chars(old(buf)@, limit as int).len() as int)
                &&& (nodes_view(t.nodes@), roots_view(t.roots@)) == (tokenize_spec(
                    input_chars(old(buf)@, limit as int),
                ))->0
                &&& status == status_of(
                    outcome_of(PageKind::TorrentList, t, input_chars(old(buf)@, limit as int)),
                    old(buf)@.len() as int,
                )
                &&& final(buf)@ == buffer_after(
                    outcome_of(PageKind::TorrentList, t, input_chars(old(buf)@, limit as int)),
                    old(buf)@,
                )
            },
        status >= 0 ==> exists|r: ExtractionResult|
            result_shape(PageKind::TorrentList, r) && status == (#[trigger] encoding_of(r)).len()
                && final(buf)@.subrange(0, status as int) == encoding_of(r),
{
    parse_marshal_inplace(&PageKind::TorrentList, buf, limit)
}

} // verus!
