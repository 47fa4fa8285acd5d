//! The registry of webviews, rendering groups and painting order.
//!
//! A `WebViewManager` keeps four tables consistent under arbitrary
//! add/remove/show/hide/raise operations:
//!
//! * the webview registry (every known webview, with its payload),
//! * the group membership index (which rendering group owns each webview),
//! * the live rendering groups (each with the pipeline handles and the
//!   document it draws into),
//! * the painting order per group (visible webviews, back to front).
//!
//! Group ids are allocated starting at 1 and never reused within a process
//! lifetime, even after a group is torn down.

use vstd::prelude::*;

use crate::alist::{
    as_map, find_u64_key, find_webview_key, has_key, keys_of, lemma_entry_determines,
    lemma_has_key_in_keys, lemma_push, lemma_remove, lemma_update, pair_value_mut, uniq_keys,
    value_of, vec_index_mut,
};
use crate::ids::{DocumentId, RenderingGroupId, UnknownRenderingGroup, UnknownWebView, WebViewId};

verus! {

/// Everything one rendering group owns: the document allocated from the
/// rendering pipeline, and the embedding's pipeline handles (renderer,
/// graphics API, drawing surface), which the verified core carries around
/// opaquely.
pub struct WebRenderInstance<R> {
    pub webrender_document: DocumentId,
    pub resources: R,
}

/// The compositor's bookkeeping state.  `WebView` is the caller-supplied
/// payload kept per webview; `R` is the embedding's per-group pipeline
/// resource bundle.
pub struct WebViewManager<WebView, R> {
    webviews: Vec<(WebViewId, WebView)>,
    rendering_contexts: Vec<(RenderingGroupId, WebRenderInstance<R>)>,
    webview_groups: Vec<(WebViewId, RenderingGroupId)>,
    painting_order: Vec<(RenderingGroupId, Vec<WebViewId>)>,
    last_used_id: Option<RenderingGroupId>,
}

/// The painting-order table read as key/sequence pairs.
pub open spec fn order_entries(
    s: Seq<(RenderingGroupId, Vec<WebViewId>)>,
) -> Seq<(RenderingGroupId, Seq<WebViewId>)> {
    s.map_values(|p: (RenderingGroupId, Vec<WebViewId>)| (p.0, p.1@))
}

/// Reading the painting-order table as pairs of group id and sequence
/// keeps its length, keys and key uniqueness.
proof fn lemma_order_entries(s: Seq<(RenderingGroupId, Vec<WebViewId>)>)
    ensures
        order_entries(s).len() == s.len(),
        forall|i: int|
            0 <= i < s.len() ==> #[trigger] order_entries(s)[i] == (s[i].0, s[i].1@),
        keys_of(order_entries(s)) =~= keys_of(s),
        uniq_keys(order_entries(s)) <==> uniq_keys(s),
        forall|g: RenderingGroupId| #[trigger] has_key(order_entries(s), g) <==> has_key(s, g),
{
    assert forall|i: int, j: int| 0 <= i < j < order_entries(s).len() && uniq_keys(s) implies (
    #[trigger] order_entries(s)[i]).0 != (#[trigger] order_entries(s)[j]).0 by {
        assert(s[i].0 != s[j].0);
    }
    assert forall|i: int, j: int| 0 <= i < j < s.len() && uniq_keys(order_entries(s)) implies (
    #[trigger] s[i]).0 != (#[trigger] s[j]).0 by {
        assert(order_entries(s)[i].0 != order_entries(s)[j].0);
    }
    assert forall|g: RenderingGroupId| #[trigger] has_key(order_entries(s), g) <==> has_key(
        s,
        g,
    ) by {
        if has_key(order_entries(s), g) {
            let i = choose|i: int|
                0 <= i < order_entries(s).len() && (#[trigger] order_entries(s)[i]).0 == g;
            assert(s[i].0 == g);
        }
        if has_key(s, g) {
            let i = choose|i: int| 0 <= i < s.len() && (#[trigger] s[i]).0 == g;
            assert(order_entries(s)[i].0 == g);
        }
    }
}

/// Finds the first position of a webview within one painting order.
fn order_index_of(v: &Vec<WebViewId>, id: WebViewId) -> (r: Option<usize>)
    ensures
        match r {
            Some(i) => 0 <= i < v@.len() && v@[i as int] == id && (forall|j: int|
                0 <= j < i ==> v@[j] != id),
            None => !v@.contains(id),
        },
{
    let mut i: usize = 0;
    while i < v.len()
        invariant
            0 <= i <= v@.len(),
            forall|j: int| 0 <= j < i ==> v@[j] != id,
        decreases v@.len() - i,
    {
        if v[i] == id {
            return Some(i);
        }
        i += 1;
    }
    None
}

/// When a value stands at position `i` of a sequence, with no earlier
/// occurrence, removing position `i` is what `remove_value` denotes.
proof fn lemma_first_index_remove_value<A>(s: Seq<A>, id: A, i: int)
    requires
        0 <= i < s.len(),
        s[i] == id,
        forall|j: int| 0 <= j < i ==> s[j] != id,
    ensures
        s.remove_value(id) == s.remove(i),
{
    s.index_of_first_ensures(id);
    assert(s.contains(id));
    let fi = s.index_of_first(id)->0;
    if fi < i {
        assert(s[fi] != id);
    } else if i < fi {
        assert(s[i] != id);
    }
}

/// Removing one position from a duplicate-free order keeps it duplicate
/// free, drops that member, and keeps every other member.
proof fn lemma_remove_at_no_duplicates(s: Seq<WebViewId>, i: int)
    requires
        s.no_duplicates(),
        0 <= i < s.len(),
    ensures
        s.remove(i).no_duplicates(),
        !s.remove(i).contains(s[i]),
        forall|x: WebViewId| x != s[i] ==> (s.remove(i).contains(x) <==> s.contains(x)),
{
    s.remove_ensures(i);
    assert forall|a: int, b: int|
        0 <= a < s.remove(i).len() && 0 <= b < s.remove(i).len() && a != b implies s.remove(i)[a]
        != s.remove(i)[b] by {
        let a0: int = if a < i { a } else { a + 1 };
        let b0: int = if b < i { b } else { b + 1 };
        assert(s.remove(i)[a] == s[a0] && s.remove(i)[b] == s[b0]);
    }
    assert forall|a: int| 0 <= a < s.remove(i).len() implies s.remove(i)[a] != s[i] by {
        let a0: int = if a < i { a } else { a + 1 };
        assert(s.remove(i)[a] == s[a0]);
    }
    assert forall|x: WebViewId| x != s[i] && s.contains(x) implies s.remove(i).contains(x) by {
        let a0 = choose|a0: int| 0 <= a0 < s.len() && s[a0] == x;
        let a: int = if a0 < i { a0 } else { a0 - 1 };
        assert(s.remove(i)[a] == x);
    }
}

/// A state whose group and webview tables agree with a well-formed one,
/// with the painting-order keys kept in place, keeps the key discipline.
proof fn lemma_wf_keys_kept<WebView, R>(
    pre: WebViewManager<WebView, R>,
    post: WebViewManager<WebView, R>,
)
    requires
        pre.wf_keys(),
        post.webviews == pre.webviews,
        post.webview_groups == pre.webview_groups,
        post.rendering_contexts == pre.rendering_contexts,
        post.painting_order@.len() == pre.painting_order@.len(),
        forall|k: int|
            0 <= k < pre.painting_order@.len() ==> (#[trigger] post.painting_order@[k]).0
                == pre.painting_order@[k].0,
    ensures
        post.wf_keys(),
        post.group_order() == pre.group_order(),
{
    assert(keys_of(post.painting_order@) =~= keys_of(pre.painting_order@));
    assert forall|a: int, b: int|
        0 <= a < b < post.painting_order@.len() implies (#[trigger] post.painting_order@[a]).0
        != (#[trigger] post.painting_order@[b]).0 by {
        assert(post.painting_order@[a].0 == pre.painting_order@[a].0);
        assert(post.painting_order@[b].0 == pre.painting_order@[b].0);
    }
}

/// Keeping the membership table and the painting-order keys keeps every
/// membership pointing at a registered webview and a live group.
proof fn lemma_wf_membership_kept<WebView, R>(
    pre: WebViewManager<WebView, R>,
    post: WebViewManager<WebView, R>,
)
    requires
        pre.wf_membership(),
        post.webviews == pre.webviews,
        post.webview_groups == pre.webview_groups,
        post.painting_order@.len() == pre.painting_order@.len(),
        forall|k: int|
            0 <= k < pre.painting_order@.len() ==> (#[trigger] post.painting_order@[k]).0
                == pre.painting_order@[k].0,
    ensures
        post.wf_membership(),
{
    assert forall|i: int|
        0 <= i < post.webview_groups@.len() implies has_key(
        post.webviews@,
        (#[trigger] post.webview_groups@[i]).0,
    ) && has_key(post.painting_order@, post.webview_groups@[i].1) by {
        assert(has_key(pre.webviews@, pre.webview_groups@[i].0));
        assert(has_key(pre.painting_order@, pre.webview_groups@[i].1));
        let k = choose|k: int|
            0 <= k < pre.painting_order@.len() && (#[trigger] pre.painting_order@[k]).0
                == pre.webview_groups@[i].1;
        assert(post.painting_order@[k].0 == pre.webview_groups@[i].1);
    }
}

/// Keeping the id counter and the rendering groups keeps the id bounds.
proof fn lemma_wf_ids_kept<WebView, R>(
    pre: WebViewManager<WebView, R>,
    post: WebViewManager<WebView, R>,
)
    requires
        pre.wf_ids(),
        post.rendering_contexts == pre.rendering_contexts,
        post.last_used_id == pre.last_used_id,
    ensures
        post.wf_ids(),
{
    assert forall|i: int| 0 <= i < post.rendering_contexts@.len() implies 1 <= (
    #[trigger] post.rendering_contexts@[i]).0 && post.last_used_id is Some
        && post.rendering_contexts@[i].0 <= post.last_used_id->0 by {
        assert(pre.rendering_contexts@[i] == post.rendering_contexts@[i]);
    }
}

/// Rewriting the painting order of one group keeps every order member in
/// its group, provided the members of the new order belong to that group.
proof fn lemma_wf_order_members_updated<WebView, R>(
    pre: WebViewManager<WebView, R>,
    post: WebViewManager<WebView, R>,
    poi: int,
    new_seq: Seq<WebViewId>,
)
    requires
        pre.wf_order_members(),
        pre.wf_order_no_dups(),
        post.webview_groups == pre.webview_groups,
        0 <= poi < pre.painting_order@.len(),
        post.painting_order@.len() == pre.painting_order@.len(),
        forall|k: int|
            0 <= k < pre.painting_order@.len() && k != poi ==> #[trigger] post.painting_order@[k]
                == pre.painting_order@[k],
        post.painting_order@[poi].0 == pre.painting_order@[poi].0,
        post.painting_order@[poi].1@ == new_seq,
        forall|j: int|
            0 <= j < new_seq.len() ==> has_key(pre.webview_groups@, #[trigger] new_seq[j])
                && value_of(pre.webview_groups@, new_seq[j]) == pre.painting_order@[poi].0,
        new_seq.no_duplicates(),
    ensures
        post.wf_order_members(),
        post.wf_order_no_dups(),
{
    assert forall|i: int, j: int|
        0 <= i < post.painting_order@.len() && 0 <= j
            < (#[trigger] post.painting_order@[i]).1@.len() implies has_key(
        post.webview_groups@,
        #[trigger] post.painting_order@[i].1@[j],
    ) && value_of(post.webview_groups@, post.painting_order@[i].1@[j])
        == post.painting_order@[i].0 by {
        if i != poi {
            assert(post.painting_order@[i] == pre.painting_order@[i]);
        } else {
            assert(post.painting_order@[i].1@[j] == new_seq[j]);
        }
    }
    assert forall|i: int| 0 <= i < post.painting_order@.len() implies (
    #[trigger] post.painting_order@[i]).1@.no_duplicates() by {
        if i != poi {
            assert(post.painting_order@[i] == pre.painting_order@[i]);
        }
    }
}

/// A live group's painting order never lists a webview twice.
pub proof fn lemma_orders_no_duplicates<WebView, R>(
    m: WebViewManager<WebView, R>,
    g: RenderingGroupId,
)
    requires
        m.wf(),
        m.orders().contains_key(g),
    ensures
        m.orders()[g].no_duplicates(),
{
    lemma_order_entries(m.painting_order@);
    let poi = choose|poi: int|
        0 <= poi < m.painting_order@.len() && (#[trigger] m.painting_order@[poi]).0 == g;
    lemma_entry_determines(order_entries(m.painting_order@), poi);
    assert(m.orders()[g] == m.painting_order@[poi].1@);
}

/// Law: `show` and `hide` are idempotent.  A second `show` of the same
/// webview, with no interleaving `hide`, reports no change and leaves
/// the painting order exactly as the first left it; `hide` behaves
/// symmetrically.
pub proof fn lemma_show_hide_idempotent(order: Seq<WebViewId>, v: WebViewId)
    requires
        order.no_duplicates(),
    ensures
        show_changes(shown_order(order, v), v) == false,
        shown_order(shown_order(order, v), v) == shown_order(order, v),
        hide_changes(hidden_order(order, v), v) == false,
        hidden_order(hidden_order(order, v), v) == hidden_order(order, v),
{
    if !order.contains(v) {
        assert(shown_order(order, v)[order.len() as int] == v);
        assert(shown_order(order, v).contains(v));
    }
    order.index_of_first_ensures(v);
    if order.contains(v) {
        let fi = order.index_of_first(v)->0;
        lemma_remove_at_no_duplicates(order, fi);
        hidden_order(order, v).index_of_first_ensures(v);
    } else {
        assert(hidden_order(order, v) == order);
    }
}

/// Law: `raise_to_top` leaves the painting order untouched when the
/// webview is already topmost, and otherwise moves exactly that webview
/// to the end; either way the webview ends up topmost.
pub proof fn lemma_raise_to_top_law(order: Seq<WebViewId>, v: WebViewId)
    requires
        order.no_duplicates(),
    ensures
        !raise_changes(order, v) ==> raised_order(order, v) == order,
        raise_changes(order, v) ==> raised_order(order, v) == order.remove_value(v).push(v),
        raised_order(order, v).len() > 0,
        raised_order(order, v).last() == v,
        forall|x: WebViewId|
            #[trigger] raised_order(order, v).contains(x) <==> (order.contains(x) || x == v),
{
    order.index_of_first_ensures(v);
    if raise_changes(order, v) {
        let r = order.remove_value(v).push(v);
        assert(r.last() == v);
        assert forall|x: WebViewId| #[trigger] r.contains(x) implies (order.contains(x) || x
            == v) by {
            if x != v {
                let a = choose|a: int| 0 <= a < r.len() && r[a] == x;
                assert(order.remove_value(v)[a] == x);
                if order.contains(v) {
                    let fi = order.index_of_first(v)->0;
                    lemma_remove_at_no_duplicates(order, fi);
                }
            }
        }
        assert forall|x: WebViewId| order.contains(x) || x == v implies #[trigger] r.contains(
            x,
        ) by {
            if x == v {
                assert(r[r.len() - 1] == v);
            } else if order.contains(x) {
                if order.contains(v) {
                    let fi = order.index_of_first(v)->0;
                    lemma_remove_at_no_duplicates(order, fi);
                    assert(order.remove_value(v).contains(x));
                    let a = choose|a: int|
                        0 <= a < order.remove_value(v).len() && order.remove_value(v)[a] == x;
                    assert(r[a] == x);
                } else {
                    let a = choose|a: int| 0 <= a < order.len() && order[a] == x;
                    assert(r[a] == x);
                }
            }
        }
    } else {
        assert(order.contains(v)) by {
            assert(order[order.len() - 1] == v);
        }
    }
}

/// Law: painting order is preserved.  From an empty order, showing
/// three distinct webviews yields exactly that sequence; hiding the
/// middle one drops it in place; raising the first then moves it to the
/// end and keeps the rest in order.
pub proof fn lemma_order_preservation(a: WebViewId, b: WebViewId, c: WebViewId)
    requires
        a != b,
        b != c,
        a != c,
    ensures
        shown_order(shown_order(shown_order(Seq::<WebViewId>::empty(), a), b), c) == seq![a, b, c],
        hidden_order(seq![a, b, c], b) == seq![a, c],
        raised_order(seq![a, c], a) == seq![c, a],
{
    let s0 = Seq::<WebViewId>::empty();
    assert(!s0.contains(a));
    let s1 = shown_order(s0, a);
    assert(s1 =~= seq![a]);
    assert(!s1.contains(b)) by {
        if s1.contains(b) {
            let i = choose|i: int| 0 <= i < s1.len() && s1[i] == b;
            assert(s1[i] == a);
        }
    }
    let s2 = shown_order(s1, b);
    assert(s2 =~= seq![a, b]);
    assert(!s2.contains(c)) by {
        if s2.contains(c) {
            let i = choose|i: int| 0 <= i < s2.len() && s2[i] == c;
        }
    }
    let s3 = shown_order(s2, c);
    assert(s3 =~= seq![a, b, c]);
    let abc = seq![a, b, c];
    assert(hidden_order(abc, b) == seq![a, c]) by {
        assert(abc[1] == b);
        assert(abc[0] != b);
        lemma_first_index_remove_value(abc, b, 1);
        assert(abc.remove(1) =~= seq![a, c]);
    }
    let ac = seq![a, c];
    assert(raised_order(ac, a) == seq![c, a]) by {
        assert(ac.last() == c);
        assert(raise_changes(ac, a));
        assert(ac[0] == a);
        lemma_first_index_remove_value(ac, a, 0);
        assert(ac.remove(0) =~= seq![c]);
        assert(ac.remove_value(a).push(a) =~= seq![c, a]);
    }
}

/// Every live rendering group's id lies between 1 and the last id
/// handed out.  Together with the allocation contract — each new group
/// gets the successor of the last id — this is why a group id is never
/// reused within a process lifetime, even after a teardown.
pub proof fn lemma_group_ids_bounded<WebView, R>(
    m: WebViewManager<WebView, R>,
    g: RenderingGroupId,
)
    requires
        m.wf(),
        m.orders().contains_key(g),
    ensures
        m.last_group_id() is Some,
        1 <= g <= m.last_group_id()->0,
{
    lemma_order_entries(m.painting_order@);
    assert(has_key(m.painting_order@, g));
    lemma_has_key_in_keys::<RenderingGroupId, Vec<WebViewId>>(m.painting_order@, g);
    lemma_has_key_in_keys::<RenderingGroupId, WebRenderInstance<R>>(m.rendering_contexts@, g);
    assert(has_key(m.rendering_contexts@, g));
    let i = choose|i: int|
        0 <= i < m.rendering_contexts@.len() && (#[trigger] m.rendering_contexts@[i]).0 == g;
    assert(1 <= m.rendering_contexts@[i].0);
}

/// A webview shown in a group's painting order is owned by exactly that
/// group.
pub proof fn lemma_visible_implies_owned<WebView, R>(
    m: WebViewManager<WebView, R>,
    g: RenderingGroupId,
    v: WebViewId,
)
    requires
        m.wf(),
        m.orders().contains_key(g),
        m.orders()[g].contains(v),
    ensures
        m.groups_of().contains_key(v),
        m.groups_of()[v] == g,
{
    lemma_order_entries(m.painting_order@);
    let poi = choose|poi: int|
        0 <= poi < m.painting_order@.len() && (#[trigger] m.painting_order@[poi]).0 == g;
    lemma_entry_determines(order_entries(m.painting_order@), poi);
    assert(m.orders()[g] == m.painting_order@[poi].1@);
    let j = choose|j: int|
        0 <= j < m.painting_order@[poi].1@.len() && m.painting_order@[poi].1@[j] == v;
    assert(has_key(m.webview_groups@, m.painting_order@[poi].1@[j]));
    assert(value_of(m.webview_groups@, v) == g);
}

/// Session isolation: a webview shown in one group's painting order never
/// appears in another group's painting order.
pub proof fn lemma_session_isolation<WebView, R>(
    m: WebViewManager<WebView, R>,
    g1: RenderingGroupId,
    g2: RenderingGroupId,
    v: WebViewId,
)
    requires
        m.wf(),
        m.orders().contains_key(g1),
        m.orders().contains_key(g2),
        g1 != g2,
        m.orders()[g1].contains(v),
    ensures
        !m.orders()[g2].contains(v),
{
    if m.orders()[g2].contains(v) {
        lemma_visible_implies_owned(m, g1, v);
        lemma_visible_implies_owned(m, g2, v);
    }
}

/// A webview with no group assignment is absent from every painting
/// order.
pub proof fn lemma_unassigned_invisible<WebView, R>(
    m: WebViewManager<WebView, R>,
    g: RenderingGroupId,
    v: WebViewId,
)
    requires
        m.wf(),
        m.orders().contains_key(g),
        !m.groups_of().contains_key(v),
    ensures
        !m.orders()[g].contains(v),
{
    if m.orders()[g].contains(v) {
        lemma_visible_implies_owned(m, g, v);
    }
}

/// Rewriting the payload stored for one webview preserves
/// well-formedness and every table but the registry.
proof fn lemma_wf_update_payload<WebView, R>(
    pre: WebViewManager<WebView, R>,
    i: int,
    w: WebView,
)
    requires
        pre.wf(),
        0 <= i < pre.webviews@.len(),
    ensures
        keys_consistent(
            pre.webviews@.update(i, (pre.webviews@[i].0, w)),
            pre.webview_groups@,
            pre.rendering_contexts@,
            pre.painting_order@,
        ),
        membership_consistent(
            pre.webviews@.update(i, (pre.webviews@[i].0, w)),
            pre.webview_groups@,
            pre.painting_order@,
        ),
        as_map(pre.webviews@.update(i, (pre.webviews@[i].0, w))) == pre.views().insert(
            pre.webviews@[i].0,
            w,
        ),
        keys_of(pre.webviews@.update(i, (pre.webviews@[i].0, w))) == pre.registration_order(),
{
    lemma_update(pre.webviews@, i, w);
    let vs2 = pre.webviews@.update(i, (pre.webviews@[i].0, w));
    assert forall|k: int|
        0 <= k < pre.webview_groups@.len() implies has_key(
        vs2,
        (#[trigger] pre.webview_groups@[k]).0,
    ) && has_key(pre.painting_order@, pre.webview_groups@[k].1) by {
        assert(has_key(pre.webviews@, pre.webview_groups@[k].0));
        let a = choose|a: int|
            0 <= a < pre.webviews@.len() && (#[trigger] pre.webviews@[a]).0
                == pre.webview_groups@[k].0;
        assert(vs2[a].0 == pre.webviews@[a].0);
    }
}

/// Removing the membership entry of a webview that no painting order
/// lists preserves well-formedness and every table but the membership
/// index.
proof fn lemma_wf_remove_membership<WebView, R>(
    pre: WebViewManager<WebView, R>,
    post: WebViewManager<WebView, R>,
    gi: int,
)
    requires
        pre.wf(),
        0 <= gi < pre.webview_groups@.len(),
        post.webview_groups@ == pre.webview_groups@.remove(gi),
        post.webviews == pre.webviews,
        post.rendering_contexts == pre.rendering_contexts,
        post.painting_order == pre.painting_order,
        post.last_used_id == pre.last_used_id,
        forall|a: int, b: int|
            0 <= a < pre.painting_order@.len() && 0 <= b < pre.painting_order@[a].1@.len()
                ==> #[trigger] pre.painting_order@[a].1@[b] != pre.webview_groups@[gi].0,
    ensures
        post.wf(),
        post.groups_of() == pre.groups_of().remove(pre.webview_groups@[gi].0),
        post.views() == pre.views(),
        post.registration_order() == pre.registration_order(),
        post.instances() == pre.instances(),
        post.orders() == pre.orders(),
        post.group_order() == pre.group_order(),
        post.last_group_id() == pre.last_group_id(),
{
    let v = pre.webview_groups@[gi].0;
    lemma_remove(pre.webview_groups@, gi);
    lemma_wf_ids_kept(pre, post);
    assert(post.wf_keys());
    assert(post.wf_membership()) by {
        assert forall|k: int|
            0 <= k < post.webview_groups@.len() implies has_key(
            post.webviews@,
            (#[trigger] post.webview_groups@[k]).0,
        ) && has_key(post.painting_order@, post.webview_groups@[k].1) by {
            let k0: int = if k < gi {
                k
            } else {
                k + 1
            };
            assert(post.webview_groups@[k] == pre.webview_groups@[k0]);
            assert(has_key(pre.webviews@, pre.webview_groups@[k0].0));
            assert(has_key(pre.painting_order@, pre.webview_groups@[k0].1));
        }
    }
    assert(post.wf_order_members()) by {
        assert forall|a: int, b: int|
            0 <= a < post.painting_order@.len() && 0 <= b
                < (#[trigger] post.painting_order@[a]).1@.len() implies has_key(
            post.webview_groups@,
            #[trigger] post.painting_order@[a].1@[b],
        ) && value_of(post.webview_groups@, post.painting_order@[a].1@[b])
            == post.painting_order@[a].0 by {
            assert(post.painting_order@[a] == pre.painting_order@[a]);
            let x = pre.painting_order@[a].1@[b];
            assert(x != v);
            assert(has_key(pre.webview_groups@, x));
            let c = choose|c: int|
                0 <= c < pre.webview_groups@.len() && (#[trigger] pre.webview_groups@[c]).0 == x;
            lemma_entry_determines(pre.webview_groups@, c);
            assert(c != gi);
            let c2: int = if c < gi {
                c
            } else {
                c - 1
            };
            assert(post.webview_groups@[c2] == pre.webview_groups@[c]);
            lemma_entry_determines(post.webview_groups@, c2);
        }
    }
    assert(post.wf_order_no_dups()) by {
        assert forall|a: int| 0 <= a < post.painting_order@.len() implies (
        #[trigger] post.painting_order@[a]).1@.no_duplicates() by {
            assert(post.painting_order@[a] == pre.painting_order@[a]);
        }
    }
    lemma_order_entries(pre.painting_order@);
    assert(post.orders() == pre.orders());
}

/// Removing a registered webview that has no membership entry preserves
/// well-formedness and every table but the registry.
proof fn lemma_wf_remove_webview<WebView, R>(
    pre: WebViewManager<WebView, R>,
    post: WebViewManager<WebView, R>,
    i: int,
)
    requires
        pre.wf(),
        0 <= i < pre.webviews@.len(),
        post.webviews@ == pre.webviews@.remove(i),
        !has_key(pre.webview_groups@, pre.webviews@[i].0),
        post.webview_groups == pre.webview_groups,
        post.rendering_contexts == pre.rendering_contexts,
        post.painting_order == pre.painting_order,
        post.last_used_id == pre.last_used_id,
    ensures
        post.wf(),
        post.views() == pre.views().remove(pre.webviews@[i].0),
        post.registration_order() == pre.registration_order().remove_value(pre.webviews@[i].0),
        post.groups_of() == pre.groups_of(),
        post.instances() == pre.instances(),
        post.orders() == pre.orders(),
        post.group_order() == pre.group_order(),
        post.last_group_id() == pre.last_group_id(),
{
    let v = pre.webviews@[i].0;
    lemma_remove(pre.webviews@, i);
    assert(post.registration_order() == pre.registration_order().remove_value(v)) by {
        assert(keys_of(post.webviews@) == keys_of(pre.webviews@).remove(i));
        assert(keys_of(pre.webviews@)[i] == v);
        assert forall|j: int| 0 <= j < i implies keys_of(pre.webviews@)[j] != v by {
            assert(pre.webviews@[j].0 == keys_of(pre.webviews@)[j]);
            assert(pre.webviews@[i].0 == v);
        }
        lemma_first_index_remove_value(keys_of(pre.webviews@), v, i);
    }
    lemma_wf_ids_kept(pre, post);
    assert(post.wf_keys());
    assert(post.wf_membership()) by {
        assert forall|k: int|
            0 <= k < post.webview_groups@.len() implies has_key(
            post.webviews@,
            (#[trigger] post.webview_groups@[k]).0,
        ) && has_key(post.painting_order@, post.webview_groups@[k].1) by {
            assert(pre.webview_groups@[k] == post.webview_groups@[k]);
            let x = pre.webview_groups@[k].0;
            assert(has_key(pre.webviews@, x));
            let a = choose|a: int|
                0 <= a < pre.webviews@.len() && (#[trigger] pre.webviews@[a]).0 == x;
            assert(a != i);
            let a2: int = if a < i {
                a
            } else {
                a - 1
            };
            assert(post.webviews@[a2] == pre.webviews@[a]);
            assert(has_key(pre.painting_order@, pre.webview_groups@[k].1));
        }
    }
    assert(post.wf_order_members()) by {
        assert forall|a: int, b: int|
            0 <= a < post.painting_order@.len() && 0 <= b
                < (#[trigger] post.painting_order@[a]).1@.len() implies has_key(
            post.webview_groups@,
            #[trigger] post.painting_order@[a].1@[b],
        ) && value_of(post.webview_groups@, post.painting_order@[a].1@[b])
            == post.painting_order@[a].0 by {
            assert(post.painting_order@[a] == pre.painting_order@[a]);
        }
    }
    assert(post.wf_order_no_dups()) by {
        assert forall|a: int| 0 <= a < post.painting_order@.len() implies (
        #[trigger] post.painting_order@[a]).1@.no_duplicates() by {
            assert(post.painting_order@[a] == pre.painting_order@[a]);
        }
    }
    lemma_order_entries(pre.painting_order@);
    assert(post.orders() == pre.orders());
}

/// Rewriting the pipeline instance stored for one rendering group
/// preserves well-formedness and every table but the instance table.
proof fn lemma_wf_update_instance<WebView, R>(
    pre: WebViewManager<WebView, R>,
    i: int,
    inst: WebRenderInstance<R>,
)
    requires
        pre.wf(),
        0 <= i < pre.rendering_contexts@.len(),
    ensures
        keys_consistent(
            pre.webviews@,
            pre.webview_groups@,
            pre.rendering_contexts@.update(i, (pre.rendering_contexts@[i].0, inst)),
            pre.painting_order@,
        ),
        ids_bounded(
            pre.rendering_contexts@.update(i, (pre.rendering_contexts@[i].0, inst)),
            pre.last_used_id,
        ),
        as_map(pre.rendering_contexts@.update(i, (pre.rendering_contexts@[i].0, inst)))
            == pre.instances().insert(pre.rendering_contexts@[i].0, inst),
        keys_of(pre.rendering_contexts@.update(i, (pre.rendering_contexts@[i].0, inst)))
            == keys_of(pre.rendering_contexts@),
{
    lemma_update(pre.rendering_contexts@, i, inst);
    let rc2 = pre.rendering_contexts@.update(i, (pre.rendering_contexts@[i].0, inst));
    assert forall|k: int| 0 <= k < rc2.len() implies 1 <= (#[trigger] rc2[k]).0
        && pre.last_used_id is Some && rc2[k].0 <= pre.last_used_id->0 by {
        assert(rc2[k].0 == pre.rendering_contexts@[k].0);
    }
}

/// Rewriting the painting order of one group preserves well-formedness
/// and leaves every other table untouched, provided the new order is
/// duplicate free and all its members belong to that group.
proof fn lemma_wf_update_order<WebView, R>(
    pre: WebViewManager<WebView, R>,
    post: WebViewManager<WebView, R>,
    poi: int,
    new_seq: Seq<WebViewId>,
)
    requires
        pre.wf(),
        0 <= poi < pre.painting_order@.len(),
        post.webviews == pre.webviews,
        post.webview_groups == pre.webview_groups,
        post.rendering_contexts == pre.rendering_contexts,
        post.last_used_id == pre.last_used_id,
        post.painting_order@.len() == pre.painting_order@.len(),
        forall|k: int|
            0 <= k < pre.painting_order@.len() && k != poi ==> #[trigger] post.painting_order@[k]
                == pre.painting_order@[k],
        post.painting_order@[poi].0 == pre.painting_order@[poi].0,
        post.painting_order@[poi].1@ == new_seq,
        forall|j: int|
            0 <= j < new_seq.len() ==> has_key(pre.webview_groups@, #[trigger] new_seq[j])
                && value_of(pre.webview_groups@, new_seq[j]) == pre.painting_order@[poi].0,
        new_seq.no_duplicates(),
    ensures
        post.wf(),
        post.orders() == pre.orders().insert(pre.painting_order@[poi].0, new_seq),
        post.group_order() == pre.group_order(),
        post.views() == pre.views(),
        post.groups_of() == pre.groups_of(),
        post.instances() == pre.instances(),
        post.registration_order() == pre.registration_order(),
        post.last_group_id() == pre.last_group_id(),
{
    let old_po = pre.painting_order@;
    let new_po = post.painting_order@;
    let g = old_po[poi].0;
    lemma_order_entries(old_po);
    lemma_entry_determines(order_entries(old_po), poi);
    assert(order_entries(new_po) =~= order_entries(old_po).update(poi, (g, new_seq)));
    lemma_update(order_entries(old_po), poi, new_seq);
    assert(post.orders() == pre.orders().insert(g, new_seq));
    lemma_wf_keys_kept(pre, post);
    lemma_wf_membership_kept(pre, post);
    lemma_wf_ids_kept(pre, post);
    lemma_wf_order_members_updated(pre, post, poi, new_seq);
    assert(post.wf());
}

/// All four tables have unique keys, and the painting-order table lists
/// exactly the live rendering groups, in the same order.
spec fn keys_consistent<WebView, R>(
    vs: Seq<(WebViewId, WebView)>,
    wg: Seq<(WebViewId, RenderingGroupId)>,
    rc: Seq<(RenderingGroupId, WebRenderInstance<R>)>,
    po: Seq<(RenderingGroupId, Vec<WebViewId>)>,
) -> bool {
    &&& uniq_keys(vs)
    &&& uniq_keys(wg)
    &&& uniq_keys(rc)
    &&& uniq_keys(po)
    &&& keys_of(po) == keys_of(rc)
}

/// Every webview with a membership is registered, and its group is live.
spec fn membership_consistent<WebView>(
    vs: Seq<(WebViewId, WebView)>,
    wg: Seq<(WebViewId, RenderingGroupId)>,
    po: Seq<(RenderingGroupId, Vec<WebViewId>)>,
) -> bool {
    forall|i: int|
        0 <= i < wg.len() ==> has_key(vs, (#[trigger] wg[i]).0) && has_key(po, wg[i].1)
}

/// Every webview in a group's painting order belongs to exactly that
/// group.
spec fn order_members_consistent(
    wg: Seq<(WebViewId, RenderingGroupId)>,
    po: Seq<(RenderingGroupId, Vec<WebViewId>)>,
) -> bool {
    forall|i: int, j: int|
        0 <= i < po.len() && 0 <= j < (#[trigger] po[i]).1@.len() ==> has_key(
            wg,
            #[trigger] po[i].1@[j],
        ) && value_of(wg, po[i].1@[j]) == po[i].0
}

/// No painting order lists a webview twice.
spec fn orders_no_dups(po: Seq<(RenderingGroupId, Vec<WebViewId>)>) -> bool {
    forall|i: int| 0 <= i < po.len() ==> (#[trigger] po[i]).1@.no_duplicates()
}

/// Every live group id lies between 1 and the last id handed out.
spec fn ids_bounded<R>(
    rc: Seq<(RenderingGroupId, WebRenderInstance<R>)>,
    last: Option<RenderingGroupId>,
) -> bool {
    forall|i: int|
        0 <= i < rc.len() ==> 1 <= (#[trigger] rc[i]).0 && last is Some && rc[i].0 <= last->0
}

/// The painting order a `show` leaves behind: append the webview unless
/// it is already visible.
pub open spec fn shown_order(order: Seq<WebViewId>, v: WebViewId) -> Seq<WebViewId> {
    if order.contains(v) {
        order
    } else {
        order.push(v)
    }
}

/// Whether a `show` reports a change: exactly when the webview was not
/// yet visible.
pub open spec fn show_changes(order: Seq<WebViewId>, v: WebViewId) -> bool {
    !order.contains(v)
}

/// The painting order a `hide` leaves behind: the order without the
/// webview.
pub open spec fn hidden_order(order: Seq<WebViewId>, v: WebViewId) -> Seq<WebViewId> {
    order.remove_value(v)
}

/// Whether a `hide` reports a change: exactly when the webview was
/// visible.
pub open spec fn hide_changes(order: Seq<WebViewId>, v: WebViewId) -> bool {
    order.contains(v)
}

/// The painting order a `raise_to_top` leaves behind: unchanged when the
/// webview is already topmost, otherwise the webview moves to the end.
pub open spec fn raised_order(order: Seq<WebViewId>, v: WebViewId) -> Seq<WebViewId> {
    if order.len() > 0 && order.last() == v {
        order
    } else {
        order.remove_value(v).push(v)
    }
}

/// Whether a `raise_to_top` reports a change: exactly when the webview
/// was not already topmost.
pub open spec fn raise_changes(order: Seq<WebViewId>, v: WebViewId) -> bool {
    !(order.len() > 0 && order.last() == v)
}

/// The membership index a group teardown leaves behind: every webview
/// assigned to that group becomes an unassigned, orphaned webview; all
/// other assignments stay.
pub open spec fn detach_group(
    m: Map<WebViewId, RenderingGroupId>,
    g: RenderingGroupId,
) -> Map<WebViewId, RenderingGroupId> {
    Map::new(|v: WebViewId| m.contains_key(v) && m[v] != g, |v: WebViewId| m[v])
}

impl<WebView, R> WebViewManager<WebView, R> {
    /// The registry: every known webview with its payload.
    pub closed spec fn views(self) -> Map<WebViewId, WebView> {
        as_map(self.webviews@)
    }

    /// The ids of the registered webviews, in registration order.
    pub closed spec fn registration_order(self) -> Seq<WebViewId> {
        keys_of(self.webviews@)
    }

    /// The group membership index: which rendering group owns each webview.
    pub closed spec fn groups_of(self) -> Map<WebViewId, RenderingGroupId> {
        as_map(self.webview_groups@)
    }

    /// The live rendering groups with their pipeline instances.
    pub closed spec fn instances(self) -> Map<RenderingGroupId, WebRenderInstance<R>> {
        as_map(self.rendering_contexts@)
    }

    /// The ids of the live rendering groups, in creation order.
    pub closed spec fn group_order(self) -> Seq<RenderingGroupId> {
        keys_of(self.painting_order@)
    }

    /// The painting order of each live group, back to front.
    pub closed spec fn orders(self) -> Map<RenderingGroupId, Seq<WebViewId>> {
        as_map(order_entries(self.painting_order@))
    }

    /// The last group id handed out, if any.  Never decreases; the next
    /// group gets the successor.
    pub closed spec fn last_group_id(self) -> Option<RenderingGroupId> {
        self.last_used_id
    }

    /// Well-formedness: the tables agree with one another.
    ///
    /// * all four tables have unique keys;
    /// * the painting-order table and the rendering-group table list the
    ///   same groups, in the same order;
    /// * every webview with a membership is registered, and its group is
    ///   live;
    /// * every webview in a group's painting order belongs to exactly that
    ///   group, and appears there at most once;
    /// * every live group id lies between 1 and the last id handed out.
    /// All four tables have unique keys, and the painting-order table
    /// lists exactly the live rendering groups, in the same order.
    pub closed spec fn wf_keys(self) -> bool {
        keys_consistent(
            self.webviews@,
            self.webview_groups@,
            self.rendering_contexts@,
            self.painting_order@,
        )
    }

    /// Every webview with a membership is registered, and its group is
    /// live.
    pub closed spec fn wf_membership(self) -> bool {
        membership_consistent(self.webviews@, self.webview_groups@, self.painting_order@)
    }

    /// Every webview in a group's painting order belongs to exactly that
    /// group.
    pub closed spec fn wf_order_members(self) -> bool {
        order_members_consistent(self.webview_groups@, self.painting_order@)
    }

    /// No painting order lists a webview twice.
    pub closed spec fn wf_order_no_dups(self) -> bool {
        orders_no_dups(self.painting_order@)
    }

    /// Every live group id lies between 1 and the last id handed out.
    pub closed spec fn wf_ids(self) -> bool {
        ids_bounded(self.rendering_contexts@, self.last_used_id)
    }

    pub closed spec fn wf(self) -> bool {
        &&& self.wf_keys()
        &&& self.wf_membership()
        &&& self.wf_order_members()
        &&& self.wf_order_no_dups()
        &&& self.wf_ids()
    }

    /// Creates an empty manager: no webviews, no groups, no id handed out.
    pub fn new() -> (r: Self)
        ensures
            r.wf(),
            r.views() == Map::<WebViewId, WebView>::empty(),
            r.groups_of() == Map::<WebViewId, RenderingGroupId>::empty(),
            r.instances() == Map::<RenderingGroupId, WebRenderInstance<R>>::empty(),
            r.orders() == Map::<RenderingGroupId, Seq<WebViewId>>::empty(),
            r.group_order() == Seq::<RenderingGroupId>::empty(),
            r.registration_order() == Seq::<WebViewId>::empty(),
            r.last_group_id() is None,
    {
        let r = WebViewManager {
            webviews: Vec::new(),
            rendering_contexts: Vec::new(),
            webview_groups: Vec::new(),
            painting_order: Vec::new(),
            last_used_id: None,
        };
        proof {
            assert(r.views() =~= Map::<WebViewId, WebView>::empty());
            assert(r.groups_of() =~= Map::<WebViewId, RenderingGroupId>::empty());
            assert(r.instances() =~= Map::<RenderingGroupId, WebRenderInstance<R>>::empty());
            lemma_order_entries(r.painting_order@);
            assert(r.orders() =~= Map::<RenderingGroupId, Seq<WebViewId>>::empty());
            assert(keys_of(r.painting_order@) =~= keys_of(r.rendering_contexts@));
            assert(r.group_order() =~= Seq::<RenderingGroupId>::empty());
            assert(r.registration_order() =~= Seq::<WebViewId>::empty());
        }
        r
    }

    /// The ids of the live rendering groups, in creation order.
    pub fn groups(&self) -> (r: Vec<RenderingGroupId>)
        ensures
            r@ == self.group_order(),
    {
        let mut r: Vec<RenderingGroupId> = Vec::new();
        let mut i: usize = 0;
        while i < self.painting_order.len()
            invariant
                0 <= i <= self.painting_order@.len(),
                r@.len() == i,
                forall|j: int| 0 <= j < i ==> r@[j] == (#[trigger] self.painting_order@[j]).0,
            decreases self.painting_order@.len() - i,
        {
            r.push(self.painting_order[i].0);
            i += 1;
        }
        proof {
            assert(r@ =~= self.group_order());
        }
        r
    }

    /// The pipeline instances of all live rendering groups, in group
    /// creation order.
    pub fn rendering_contexts(&self) -> (r: Vec<&WebRenderInstance<R>>)
        requires
            self.wf(),
        ensures
            r@.len() == self.group_order().len(),
            forall|i: int|
                0 <= i < r@.len() ==> *(#[trigger] r@[i]) == self.instances()[self.group_order()[
                    i
                ]],
    {
        let mut r: Vec<&WebRenderInstance<R>> = Vec::new();
        let mut i: usize = 0;
        while i < self.rendering_contexts.len()
            invariant
                self.wf(),
                0 <= i <= self.rendering_contexts@.len(),
                self.group_order().len() == self.rendering_contexts@.len(),
                r@.len() == i,
                forall|j: int|
                    0 <= j < i ==> *(#[trigger] r@[j]) == self.instances()[self.group_order()[j]],
            decreases self.rendering_contexts@.len() - i,
        {
            proof {
                lemma_entry_determines(self.rendering_contexts@, i as int);
                assert(self.group_order()[i as int] == keys_of(self.rendering_contexts@)[i as int]);
                assert(keys_of(self.rendering_contexts@)[i as int]
                    == self.rendering_contexts@[i as int].0);
            }
            r.push(&self.rendering_contexts[i].1);
            i += 1;
        }
        r
    }

    /// The last group id handed out, if any.  The next group gets the
    /// successor.
    pub fn last_used_id(&self) -> (r: Option<RenderingGroupId>)
        ensures
            r == self.last_group_id(),
    {
        self.last_used_id
    }

    /// The rendering group a webview belongs to, if it has one.
    pub fn group_id(&self, webview_id: WebViewId) -> (r: Option<RenderingGroupId>)
        requires
            self.wf(),
        ensures
            match r {
                Some(g) => self.groups_of().contains_key(webview_id)
                    && g == self.groups_of()[webview_id],
                None => !self.groups_of().contains_key(webview_id),
            },
    {
        match find_webview_key(&self.webview_groups, webview_id) {
            Some(i) => {
                proof {
                    lemma_entry_determines(self.webview_groups@, i as int);
                }
                Some(self.webview_groups[i].1)
            },
            None => None,
        }
    }

    /// Creates a rendering group around a freshly created pipeline
    /// instance and hands out its id: 1 for the first group, afterwards
    /// always the successor of the last id handed out, so ids are never
    /// reused even after a teardown.  The new group starts with an empty
    /// painting order and no webviews.
    pub fn add_webview_group(&mut self, instance: WebRenderInstance<R>) -> (r: RenderingGroupId)
        requires
            old(self).wf(),
            old(self).last_group_id() != Some(u64::MAX),
        ensures
            final(self).wf(),
            final(self).last_group_id() == Some(r),
            old(self).last_group_id() is None ==> r == 1,
            forall|n: RenderingGroupId| old(self).last_group_id() == Some(n) ==> r == n + 1,
            !old(self).group_order().contains(r),
            !old(self).orders().contains_key(r),
            final(self).instances() == old(self).instances().insert(r, instance),
            final(self).orders() == old(self).orders().insert(r, Seq::<WebViewId>::empty()),
            final(self).group_order() == old(self).group_order().push(r),
            final(self).views() == old(self).views(),
            final(self).groups_of() == old(self).groups_of(),
            final(self).registration_order() == old(self).registration_order(),
    {
        let new_group_id: u64 = match self.last_used_id {
            None => 1,
            Some(n) => n + 1,
        };
        self.last_used_id = Some(new_group_id);
        proof {
            assert forall|i: int| 0 <= i < self.rendering_contexts@.len() implies (
            #[trigger] self.rendering_contexts@[i]).0 != new_group_id by {}
            assert(!has_key(self.rendering_contexts@, new_group_id));
            lemma_has_key_in_keys::<RenderingGroupId, WebRenderInstance<R>>(
                self.rendering_contexts@,
                new_group_id,
            );
            lemma_has_key_in_keys::<RenderingGroupId, Vec<WebViewId>>(
                self.painting_order@,
                new_group_id,
            );
            assert(!has_key(self.painting_order@, new_group_id));
            lemma_order_entries(self.painting_order@);
            lemma_push(self.rendering_contexts@, new_group_id, instance);
            lemma_push(
                order_entries(self.painting_order@),
                new_group_id,
                Seq::<WebViewId>::empty(),
            );
        }
        let ghost old_po = self.painting_order@;
        let empty_order: Vec<WebViewId> = Vec::new();
        self.rendering_contexts.push((new_group_id, instance));
        self.painting_order.push((new_group_id, empty_order));
        proof {
            assert(order_entries(self.painting_order@) =~= order_entries(old_po).push(
                (new_group_id, Seq::<WebViewId>::empty()),
            ));
            lemma_push(old_po, new_group_id, empty_order);
            assert(keys_of(self.painting_order@) =~= keys_of(old_po).push(new_group_id));
            assert(keys_of(self.rendering_contexts@) =~= keys_of(
                self.painting_order@,
            ));
            assert forall|i: int|
                0 <= i < self.webview_groups@.len() implies has_key(
                self.webviews@,
                (#[trigger] self.webview_groups@[i]).0,
            ) && has_key(self.painting_order@, self.webview_groups@[i].1) by {
                assert(has_key(old_po, self.webview_groups@[i].1));
                let k = choose|k: int|
                    0 <= k < old_po.len() && (#[trigger] old_po[k]).0 == self.webview_groups@[i].1;
                assert(self.painting_order@[k].0 == self.webview_groups@[i].1);
            }
            assert forall|i: int, j: int|
                0 <= i < self.painting_order@.len() && 0 <= j
                    < (#[trigger] self.painting_order@[i]).1@.len() implies has_key(
                self.webview_groups@,
                #[trigger] self.painting_order@[i].1@[j],
            ) && value_of(self.webview_groups@, self.painting_order@[i].1@[j])
                == self.painting_order@[i].0 by {
                assert(i < old_po.len());
                assert(self.painting_order@[i] == old_po[i]);
            }
            assert(final(self).wf());
        }
        new_group_id
    }

    /// Registers a webview into an existing rendering group.  The first
    /// registration wins: a repeated id keeps the payload already stored,
    /// and a webview's first group assignment is permanent until the
    /// webview is removed or its group is torn down.  Registration never
    /// touches the painting order.
    pub fn add_webview(
        &mut self,
        group_id: RenderingGroupId,
        webview_id: WebViewId,
        webview: WebView,
    ) -> (r: Result<(), UnknownRenderingGroup>)
        requires
            old(self).wf(),
        ensures
            final(self).wf(),
            match r {
                Ok(()) => {
                    &&& old(self).orders().contains_key(group_id)
                    &&& final(self).views() == if old(self).views().contains_key(webview_id) {
                        old(self).views()
                    } else {
                        old(self).views().insert(webview_id, webview)
                    }
                    &&& final(self).registration_order() == if old(self).views().contains_key(
                        webview_id,
                    ) {
                        old(self).registration_order()
                    } else {
                        old(self).registration_order().push(webview_id)
                    }
                    &&& final(self).groups_of() == if old(self).groups_of().contains_key(
                        webview_id,
                    ) {
                        old(self).groups_of()
                    } else {
                        old(self).groups_of().insert(webview_id, group_id)
                    }
                    &&& final(self).orders() == old(self).orders()
                    &&& final(self).instances() == old(self).instances()
                    &&& final(self).group_order() == old(self).group_order()
                    &&& final(self).last_group_id() == old(self).last_group_id()
                },
                Err(e) => {
                    &&& e == UnknownRenderingGroup(group_id)
                    &&& !old(self).orders().contains_key(group_id)
                    &&& *final(self) == *old(self)
                },
            },
    {
        proof {
            lemma_order_entries(self.painting_order@);
        }
        if find_u64_key(&self.painting_order, group_id).is_none() {
            return Err(UnknownRenderingGroup(group_id));
        }
        let ghost old_webviews = self.webviews@;
        let ghost old_groups = self.webview_groups@;
        match find_webview_key(&self.webviews, webview_id) {
            Some(i) => {
                proof {
                    lemma_entry_determines(self.webviews@, i as int);
                    assert(self.views() =~= if self.views().contains_key(webview_id) {
                        self.views()
                    } else {
                        self.views().insert(webview_id, webview)
                    });
                }
            },
            None => {
                proof {
                    lemma_push(self.webviews@, webview_id, webview);
                }
                self.webviews.push((webview_id, webview));
            },
        }
        match find_webview_key(&self.webview_groups, webview_id) {
            Some(i) => {
                proof {
                    lemma_entry_determines(self.webview_groups@, i as int);
                    assert forall|k: int|
                        0 <= k < self.webview_groups@.len() implies has_key(
                        self.webviews@,
                        (#[trigger] self.webview_groups@[k]).0,
                    ) && has_key(self.painting_order@, self.webview_groups@[k].1) by {
                        assert(has_key(old_webviews, self.webview_groups@[k].0));
                        let a = choose|a: int|
                            0 <= a < old_webviews.len() && (#[trigger] old_webviews[a]).0
                                == self.webview_groups@[k].0;
                        assert(self.webviews@[a].0 == self.webview_groups@[k].0);
                    }
                    assert(final(self).wf());
                }
            },
            None => {
                proof {
                    lemma_push(self.webview_groups@, webview_id, group_id);
                    let pi = choose|pi: int|
                        0 <= pi < self.painting_order@.len() && (
                        #[trigger] self.painting_order@[pi]).0 == group_id;
                }
                self.webview_groups.push((webview_id, group_id));
                proof {
                    assert forall|k: int|
                        0 <= k < self.webview_groups@.len() implies has_key(
                        self.webviews@,
                        (#[trigger] self.webview_groups@[k]).0,
                    ) && has_key(self.painting_order@, self.webview_groups@[k].1) by {
                        if k < old_groups.len() {
                            assert(self.webview_groups@[k] == old_groups[k]);
                            assert(has_key(old_webviews, old_groups[k].0));
                            let a = choose|a: int|
                                0 <= a < old_webviews.len() && (#[trigger] old_webviews[a]).0
                                    == old_groups[k].0;
                            assert(self.webviews@[a].0 == old_groups[k].0);
                        } else {
                            assert(self.webview_groups@[k].0 == webview_id);
                            if !has_key(old_webviews, webview_id) {
                                assert(self.webviews@[old_webviews.len() as int].0 == webview_id);
                            } else {
                                let a = choose|a: int|
                                    0 <= a < old_webviews.len() && (#[trigger] old_webviews[a]).0
                                        == webview_id;
                                assert(self.webviews@[a].0 == webview_id);
                            }
                        }
                    }
                    assert forall|i: int, j: int|
                        0 <= i < self.painting_order@.len() && 0 <= j
                            < (#[trigger] self.painting_order@[i]).1@.len() implies has_key(
                        self.webview_groups@,
                        #[trigger] self.painting_order@[i].1@[j],
                    ) && value_of(self.webview_groups@, self.painting_order@[i].1@[j])
                        == self.painting_order@[i].0 by {
                        let v = self.painting_order@[i].1@[j];
                        assert(has_key(old_groups, v));
                        let a = choose|a: int|
                            0 <= a < old_groups.len() && (#[trigger] old_groups[a]).0 == v;
                        assert(self.webview_groups@[a] == old_groups[a]);
                        lemma_entry_determines(old_groups, a);
                        lemma_entry_determines(self.webview_groups@, a);
                    }
                    assert(final(self).wf());
                }
            },
        }
        Ok(())
    }

    /// Mutable access to the payload registered for a webview, if any.
    /// Mutating the payload never touches membership, painting order or
    /// group state.
    pub fn get_mut(&mut self, webview_id: WebViewId) -> (r: Option<&mut WebView>)
        requires
            old(self).wf(),
        ensures
            final(self).wf(),
            match r {
                Some(w) => {
                    &&& old(self).views().contains_key(webview_id)
                    &&& *w == old(self).views()[webview_id]
                    &&& final(self).views() == old(self).views().insert(webview_id, *final(w))
                    &&& final(self).groups_of() == old(self).groups_of()
                    &&& final(self).orders() == old(self).orders()
                    &&& final(self).instances() == old(self).instances()
                    &&& final(self).group_order() == old(self).group_order()
                    &&& final(self).registration_order() == old(self).registration_order()
                    &&& final(self).last_group_id() == old(self).last_group_id()
                },
                None => {
                    &&& !old(self).views().contains_key(webview_id)
                    &&& *final(self) == *old(self)
                },
            },
    {
        match find_webview_key(&self.webviews, webview_id) {
            None => None,
            Some(i) => {
                proof {
                    lemma_entry_determines(self.webviews@, i as int);
                }
                let entry = vec_index_mut(&mut self.webviews, i);
                let w = pair_value_mut(entry);
                proof {
                    lemma_wf_update_payload(*old(self), i as int, *final(w));
                }
                Some(w)
            },
        }
    }

    /// Removes a webview entirely: from the registry, from the
    /// membership index, and from its group's painting order.  The
    /// payload is handed back.  Fails when the webview is not
    /// registered, leaving the state untouched.
    pub fn remove(&mut self, webview_id: WebViewId) -> (r: Result<WebView, UnknownWebView>)
        requires
            old(self).wf(),
        ensures
            final(self).wf(),
            match r {
                Ok(w) => {
                    &&& old(self).views().contains_key(webview_id)
                    &&& w == old(self).views()[webview_id]
                    &&& final(self).views() == old(self).views().remove(webview_id)
                    &&& final(self).groups_of() == old(self).groups_of().remove(webview_id)
                    &&& final(self).registration_order() == old(
                        self,
                    ).registration_order().remove_value(webview_id)
                    &&& final(self).orders().dom() == old(self).orders().dom()
                    &&& forall|g: RenderingGroupId| #[trigger]
                        old(self).orders().contains_key(g) ==> final(self).orders()[g] == old(
                            self,
                        ).orders()[g].remove_value(webview_id)
                    &&& final(self).instances() == old(self).instances()
                    &&& final(self).group_order() == old(self).group_order()
                    &&& final(self).last_group_id() == old(self).last_group_id()
                },
                Err(e) => {
                    &&& e == UnknownWebView(webview_id)
                    &&& !old(self).views().contains_key(webview_id)
                    &&& *final(self) == *old(self)
                },
            },
    {
        if find_webview_key(&self.webviews, webview_id).is_none() {
            return Err(UnknownWebView(webview_id));
        }
        if find_webview_key(&self.webview_groups, webview_id).is_some() {
            let _changed = self.hide_webview(webview_id);
        }
        let ghost hidden = *self;
        proof {
            assert(hidden.views() == old(self).views());
            assert(hidden.groups_of() == old(self).groups_of());
        }
        match find_webview_key(&self.webview_groups, webview_id) {
            None => {
                proof {
                    assert(hidden.groups_of() =~= hidden.groups_of().remove(webview_id));
                }
            },
            Some(gi) => {
                proof {
                    lemma_entry_determines(self.webview_groups@, gi as int);
                    let g = old(self).groups_of()[webview_id];
                    assert forall|a: int, b: int|
                        0 <= a < self.painting_order@.len() && 0 <= b
                            < self.painting_order@[a].1@.len() implies #[trigger] self
                        .painting_order@[a].1@[b] != webview_id by {
                        lemma_order_entries(hidden.painting_order@);
                        lemma_entry_determines(order_entries(hidden.painting_order@), a);
                        let ga = hidden.painting_order@[a].0;
                        if hidden.painting_order@[a].1@[b] == webview_id {
                            assert(hidden.orders()[ga].contains(webview_id));
                            lemma_visible_implies_owned(hidden, ga, webview_id);
                            assert(ga == g);
                            let prior = old(self).orders()[g];
                            assert(hidden.orders()[g] == prior.remove_value(webview_id));
                            prior.index_of_first_ensures(webview_id);
                            if prior.contains(webview_id) {
                                let fi = prior.index_of_first(webview_id)->0;
                                lemma_remove_at_no_duplicates(prior, fi);
                                assert(old(self).orders().contains_key(g));
                                assert(prior.no_duplicates()) by {
                                    let poi = choose|poi: int|
                                        0 <= poi < old(self).painting_order@.len() && (
                                        #[trigger] old(self).painting_order@[poi]).0 == g;
                                    lemma_order_entries(old(self).painting_order@);
                                    lemma_entry_determines(
                                        order_entries(old(self).painting_order@),
                                        poi,
                                    );
                                }
                            }
                        }
                    }
                }
                let ghost pre_detach = *self;
                self.webview_groups.remove(gi);
                proof {
                    lemma_wf_remove_membership(pre_detach, *self, gi as int);
                }
            },
        }
        let ghost detached = *self;
        match find_webview_key(&self.webviews, webview_id) {
            None => {
                proof {
                    assert(false);
                }
                Err(UnknownWebView(webview_id))
            },
            Some(i) => {
                proof {
                    lemma_entry_determines(self.webviews@, i as int);
                    if has_key(self.webview_groups@, webview_id) {
                        let c = choose|c: int|
                            0 <= c < self.webview_groups@.len() && (
                            #[trigger] self.webview_groups@[c]).0 == webview_id;
                        lemma_entry_determines(self.webview_groups@, c);
                        assert(detached.groups_of().contains_key(webview_id));
                        assert(false);
                    }
                }
                let pair = self.webviews.remove(i);
                proof {
                    lemma_wf_remove_webview(detached, *self, i as int);
                    assert(final(self).views() == old(self).views().remove(webview_id));
                    assert(final(self).groups_of() == old(self).groups_of().remove(webview_id));
                    assert(final(self).orders().dom() =~= old(self).orders().dom());
                    assert forall|g: RenderingGroupId| #[trigger]
                        old(self).orders().contains_key(g) implies final(self).orders()[g] == old(
                        self,
                    ).orders()[g].remove_value(webview_id) by {
                        if old(self).groups_of().contains_key(webview_id) && g == old(
                            self,
                        ).groups_of()[webview_id] {
                        } else {
                            assert(final(self).orders()[g] == old(self).orders()[g]);
                            if old(self).orders()[g].contains(webview_id) {
                                lemma_visible_implies_owned(*old(self), g, webview_id);
                            }
                            old(self).orders()[g].index_of_first_ensures(webview_id);
                        }
                    }
                }
                Ok(pair.1)
            },
        }
    }

    /// The ids of the registered webviews, in registration order.
    pub fn webview_ids(&self) -> (r: Vec<WebViewId>)
        ensures
            r@ == self.registration_order(),
    {
        let mut r: Vec<WebViewId> = Vec::new();
        let mut i: usize = 0;
        while i < self.webviews.len()
            invariant
                0 <= i <= self.webviews@.len(),
                r@.len() == i,
                forall|j: int| 0 <= j < i ==> r@[j] == (#[trigger] self.webviews@[j]).0,
            decreases self.webviews@.len() - i,
        {
            r.push(self.webviews[i].0);
            i += 1;
        }
        proof {
            assert(r@ =~= self.registration_order());
        }
        r
    }

    /// The document a webview's rendering group draws into.  The webview
    /// must belong to a group.
    pub fn document_id(&self, webview_id: &WebViewId) -> (r: DocumentId)
        requires
            self.wf(),
            self.groups_of().contains_key(*webview_id),
        ensures
            self.instances().contains_key(self.groups_of()[*webview_id]),
            r == self.instances()[self.groups_of()[*webview_id]].webrender_document,
    {
        let gi = match find_webview_key(&self.webview_groups, *webview_id) {
            Some(gi) => gi,
            None => {
                proof {
                    assert(false);
                }
                0
            },
        };
        proof {
            lemma_entry_determines(self.webview_groups@, gi as int);
        }
        let g = self.webview_groups[gi].1;
        proof {
            assert(has_key(self.painting_order@, g));
            lemma_has_key_in_keys::<RenderingGroupId, Vec<WebViewId>>(self.painting_order@, g);
            lemma_has_key_in_keys::<RenderingGroupId, WebRenderInstance<R>>(
                self.rendering_contexts@,
                g,
            );
        }
        let rci = match find_u64_key(&self.rendering_contexts, g) {
            Some(rci) => rci,
            None => {
                proof {
                    assert(false);
                }
                0
            },
        };
        proof {
            lemma_entry_determines(self.rendering_contexts@, rci as int);
        }
        self.rendering_contexts[rci].1.webrender_document
    }

    /// The pipeline instance of a live rendering group.
    pub fn render_instance(&self, group_id: RenderingGroupId) -> (r: &WebRenderInstance<R>)
        requires
            self.wf(),
            self.instances().contains_key(group_id),
        ensures
            *r == self.instances()[group_id],
    {
        match find_u64_key(&self.rendering_contexts, group_id) {
            Some(rci) => {
                proof {
                    lemma_entry_determines(self.rendering_contexts@, rci as int);
                }
                &self.rendering_contexts[rci].1
            },
            None => {
                proof {
                    assert(false);
                }
                &self.rendering_contexts[0].1
            },
        }
    }

    /// Mutable access to the pipeline instance of a live rendering group,
    /// for the embedding to drive its renderer and graphics API.  The
    /// group structure itself never changes through this handle.
    pub fn render_instance_mut(&mut self, group_id: RenderingGroupId) -> (r: &mut WebRenderInstance<
        R,
    >)
        requires
            old(self).wf(),
            old(self).instances().contains_key(group_id),
        ensures
            final(self).wf(),
            *r == old(self).instances()[group_id],
            final(self).instances() == old(self).instances().insert(group_id, *final(r)),
            final(self).views() == old(self).views(),
            final(self).groups_of() == old(self).groups_of(),
            final(self).orders() == old(self).orders(),
            final(self).group_order() == old(self).group_order(),
            final(self).registration_order() == old(self).registration_order(),
            final(self).last_group_id() == old(self).last_group_id(),
    {
        let rci = match find_u64_key(&self.rendering_contexts, group_id) {
            Some(rci) => rci,
            None => {
                proof {
                    assert(false);
                }
                0
            },
        };
        proof {
            lemma_entry_determines(self.rendering_contexts@, rci as int);
            lemma_order_entries(self.painting_order@);
        }
        let entry = vec_index_mut(&mut self.rendering_contexts, rci);
        let r = pair_value_mut(entry);
        proof {
            lemma_wf_update_instance(*old(self), rci as int, *final(r));
        }
        r
    }

    /// The webviews visible in one rendering group, in painting order
    /// (back to front), each paired with its payload.  A webview whose
    /// registry entry has vanished is skipped rather than reported;
    /// under the registry's invariants nothing is ever skipped.  Fails
    /// when the group is unknown.
    pub fn painting_order(&self, group_id: RenderingGroupId) -> (r: Result<
        Vec<(WebViewId, &WebView)>,
        UnknownRenderingGroup,
    >)
        requires
            self.wf(),
        ensures
            match r {
                Ok(list) => {
                    &&& self.orders().contains_key(group_id)
                    &&& list@.len() == self.orders()[group_id].len()
                    &&& forall|i: int|
                        0 <= i < list@.len() ==> (#[trigger] list@[i]).0
                            == self.orders()[group_id][i] && self.views().contains_key(list@[i].0)
                            && *list@[i].1 == self.views()[list@[i].0]
                },
                Err(e) => {
                    &&& e == UnknownRenderingGroup(group_id)
                    &&& !self.orders().contains_key(group_id)
                },
            },
    {
        proof {
            lemma_order_entries(self.painting_order@);
        }
        match find_u64_key(&self.painting_order, group_id) {
            None => Err(UnknownRenderingGroup(group_id)),
            Some(poi) => {
                proof {
                    lemma_entry_determines(order_entries(self.painting_order@), poi as int);
                }
                let order_vec = &self.painting_order[poi].1;
                let mut list: Vec<(WebViewId, &WebView)> = Vec::new();
                let mut j: usize = 0;
                while j < order_vec.len()
                    invariant
                        self.wf(),
                        0 <= poi < self.painting_order@.len(),
                        order_vec == self.painting_order@[poi as int].1,
                        0 <= j <= order_vec@.len(),
                        list@.len() == j,
                        forall|k: int|
                            0 <= k < j ==> (#[trigger] list@[k]).0 == order_vec@[k]
                                && self.views().contains_key(list@[k].0) && *list@[k].1
                                == self.views()[list@[k].0],
                    decreases order_vec@.len() - j,
                {
                    let id = order_vec[j];
                    proof {
                        assert(has_key(self.webview_groups@, self.painting_order@[poi as int].1@[j as int]));
                        let c = choose|c: int|
                            0 <= c < self.webview_groups@.len() && (
                            #[trigger] self.webview_groups@[c]).0 == id;
                        assert(has_key(self.webviews@, self.webview_groups@[c].0));
                    }
                    match find_webview_key(&self.webviews, id) {
                        Some(a) => {
                            proof {
                                lemma_entry_determines(self.webviews@, a as int);
                            }
                            list.push((id, &self.webviews[a].1));
                        },
                        None => {
                            proof {
                                assert(false);
                            }
                        },
                    }
                    j += 1;
                }
                Ok(list)
            },
        }
    }

    /// Tears every rendering group down at once: empties the membership
    /// index and all painting orders, and hands the pipeline instances
    /// back, in group creation order, for the embedding to release.  As
    /// with a single group's teardown, the webviews stay registered as
    /// orphaned, unassigned webviews, and the id counter is kept, so
    /// group ids are not reused by a later group.
    pub fn deinit(&mut self) -> (r: Vec<WebRenderInstance<R>>)
        requires
            old(self).wf(),
        ensures
            final(self).wf(),
            r@.len() == old(self).group_order().len(),
            forall|i: int|
                0 <= i < r@.len() ==> #[trigger] r@[i] == old(self).instances()[old(
                    self,
                ).group_order()[i]],
            final(self).views() == old(self).views(),
            final(self).registration_order() == old(self).registration_order(),
            final(self).groups_of() == Map::<WebViewId, RenderingGroupId>::empty(),
            final(self).instances() == Map::<RenderingGroupId, WebRenderInstance<R>>::empty(),
            final(self).orders() == Map::<RenderingGroupId, Seq<WebViewId>>::empty(),
            final(self).group_order() == Seq::<RenderingGroupId>::empty(),
            final(self).last_group_id() == old(self).last_group_id(),
    {
        proof {
            lemma_order_entries(old(self).painting_order@);
        }
        let ghost old_rc = self.rendering_contexts@;
        let ghost old_po = self.painting_order@;
        let mut out: Vec<WebRenderInstance<R>> = Vec::new();
        while self.rendering_contexts.len() > 0
            invariant
                out@.len() + self.rendering_contexts@.len() == old_rc.len(),
                self.rendering_contexts@ == old_rc.subrange(
                    out@.len() as int,
                    old_rc.len() as int,
                ),
                forall|k: int| 0 <= k < out@.len() ==> #[trigger] out@[k] == old_rc[k].1,
                self.webviews == old(self).webviews,
                self.webview_groups == old(self).webview_groups,
                self.painting_order == old(self).painting_order,
                self.last_used_id == old(self).last_used_id,
            decreases self.rendering_contexts@.len(),
        {
            let pair = self.rendering_contexts.remove(0);
            out.push(pair.1);
            proof {
                assert(self.rendering_contexts@ =~= old_rc.subrange(
                    out@.len() as int,
                    old_rc.len() as int,
                ));
            }
        }
        self.webview_groups.clear();
        self.painting_order.clear();
        proof {
            assert forall|i: int| 0 <= i < out@.len() implies #[trigger] out@[i] == old(
                self,
            ).instances()[old(self).group_order()[i]] by {
                lemma_entry_determines(old_rc, i);
                assert(old(self).group_order()[i] == keys_of(old_po)[i]);
                assert(keys_of(old_po) == keys_of(old_rc));
                assert(keys_of(old_rc)[i] == old_rc[i].0);
            }
            assert(final(self).groups_of() =~= Map::<WebViewId, RenderingGroupId>::empty());
            assert(final(self).instances() =~= Map::<
                RenderingGroupId,
                WebRenderInstance<R>,
            >::empty());
            lemma_order_entries(self.painting_order@);
            assert(final(self).orders() =~= Map::<RenderingGroupId, Seq<WebViewId>>::empty());
            assert(final(self).group_order() =~= Seq::<RenderingGroupId>::empty());
            assert(keys_of(self.painting_order@) =~= keys_of(self.rendering_contexts@));
            assert(uniq_keys(final(self).webviews@)) by {
                assert forall|a: int, b: int|
                    0 <= a < b < final(self).webviews@.len() implies (
                #[trigger] final(self).webviews@[a]).0 != (#[trigger] final(self).webviews@[
                b]).0 by {
                    assert(final(self).webviews@[a] == old(self).webviews@[a]);
                    assert(final(self).webviews@[b] == old(self).webviews@[b]);
                }
            }
            assert(final(self).wf());
        }
        out
    }

    /// Tears one rendering group down: drains its painting order,
    /// detaches every webview still assigned to it (they stay registered
    /// as orphaned, unassigned webviews), removes the group from all
    /// session-indexed tables, and hands its pipeline instance back for
    /// the embedding to release before the drawing surface goes away.
    /// The id counter is kept, so the id is not reused by a later group.
    /// Fails when the group is unknown, leaving the state untouched.
    pub fn remove_webview_group(&mut self, group_id: RenderingGroupId) -> (r: Result<
        WebRenderInstance<R>,
        UnknownRenderingGroup,
    >)
        requires
            old(self).wf(),
        ensures
            final(self).wf(),
            match r {
                Ok(inst) => {
                    &&& old(self).instances().contains_key(group_id)
                    &&& inst == old(self).instances()[group_id]
                    &&& final(self).instances() == old(self).instances().remove(group_id)
                    &&& final(self).orders() == old(self).orders().remove(group_id)
                    &&& final(self).group_order() == old(self).group_order().remove_value(group_id)
                    &&& final(self).groups_of() == detach_group(old(self).groups_of(), group_id)
                    &&& final(self).views() == old(self).views()
                    &&& final(self).registration_order() == old(self).registration_order()
                    &&& final(self).last_group_id() == old(self).last_group_id()
                },
                Err(e) => {
                    &&& e == UnknownRenderingGroup(group_id)
                    &&& !old(self).instances().contains_key(group_id)
                    &&& *final(self) == *old(self)
                },
            },
    {
        proof {
            lemma_order_entries(self.painting_order@);
        }
        let rci = match find_u64_key(&self.rendering_contexts, group_id) {
            None => {
                return Err(UnknownRenderingGroup(group_id));
            },
            Some(rci) => rci,
        };
        proof {
            lemma_entry_determines(self.rendering_contexts@, rci as int);
        }
        let ghost old_wg = self.webview_groups@;
        let ghost old_po = self.painting_order@;
        let ghost old_rc = self.rendering_contexts@;
        let mut kept: Vec<(WebViewId, RenderingGroupId)> = Vec::new();
        let mut i: usize = 0;
        while i < self.webview_groups.len()
            invariant
                0 <= i <= self.webview_groups@.len(),
                self.webview_groups@ == old_wg,
                uniq_keys(old_wg),
                uniq_keys(kept@),
                forall|a: int| 0 <= a < kept@.len() ==> (#[trigger] kept@[a]).1 != group_id,
                forall|a: int|
                    0 <= a < kept@.len() ==> exists|k: int|
                        0 <= k < i && old_wg[k] == #[trigger] kept@[a],
                forall|k: int|
                    0 <= k < i && (#[trigger] old_wg[k]).1 != group_id ==> has_key(
                        kept@,
                        old_wg[k].0,
                    ),
            decreases self.webview_groups@.len() - i,
        {
            let ghost prior_kept = kept@;
            let key = self.webview_groups[i].0;
            let val = self.webview_groups[i].1;
            if val != group_id {
                proof {
                    if has_key(kept@, key) {
                        let a = choose|a: int|
                            0 <= a < kept@.len() && (#[trigger] kept@[a]).0 == key;
                        let k = choose|k: int| 0 <= k < i && old_wg[k] == kept@[a];
                        assert(old_wg[k].0 == old_wg[i as int].0);
                        assert(false);
                    }
                }
                kept.push((key, val));
                proof {
                    lemma_push(prior_kept, key, val);
                    assert forall|a: int| 0 <= a < kept@.len() implies exists|k: int|
                        0 <= k < i + 1 && old_wg[k] == #[trigger] kept@[a] by {
                        if a < prior_kept.len() {
                            assert(kept@[a] == prior_kept[a]);
                            let k = choose|k: int| 0 <= k < i && old_wg[k] == prior_kept[a];
                            assert(old_wg[k] == kept@[a]);
                        } else {
                            assert(old_wg[i as int] == kept@[a]);
                        }
                    }
                    assert forall|k: int|
                        0 <= k < i + 1 && (#[trigger] old_wg[k]).1 != group_id implies has_key(
                        kept@,
                        old_wg[k].0,
                    ) by {
                        if k < i {
                            assert(has_key(prior_kept, old_wg[k].0));
                            let a = choose|a: int|
                                0 <= a < prior_kept.len() && (#[trigger] prior_kept[a]).0
                                    == old_wg[k].0;
                            assert(kept@[a].0 == old_wg[k].0);
                        } else {
                            assert(kept@[kept@.len() - 1].0 == old_wg[k].0);
                        }
                    }
                }
            }
            i += 1;
        }
        self.webview_groups = kept;
        let poi = match find_u64_key(&self.painting_order, group_id) {
            None => {
                proof {
                    lemma_has_key_in_keys::<RenderingGroupId, WebRenderInstance<R>>(
                        old_rc,
                        group_id,
                    );
                    lemma_has_key_in_keys::<RenderingGroupId, Vec<WebViewId>>(old_po, group_id);
                    assert(false);
                }
                return Err(UnknownRenderingGroup(group_id));
            },
            Some(poi) => poi,
        };
        let _drained = self.painting_order.remove(poi);
        let rc_pair = self.rendering_contexts.remove(rci);
        proof {
            let g = group_id;
            let wg2 = final(self).webview_groups@;
            let po2 = final(self).painting_order@;
            let rc2 = final(self).rendering_contexts@;
            lemma_entry_determines(old_po, poi as int);
            lemma_entry_determines(old_rc, rci as int);
            // the two tables list the groups in the same order, so the
            // first position of the removed group agrees
            assert(keys_of(old_po) == keys_of(old_rc));
            assert(poi == rci) by {
                assert(keys_of(old_po)[poi as int] == old_po[poi as int].0);
                assert(keys_of(old_rc)[rci as int] == old_rc[rci as int].0);
                if (poi as int) < (rci as int) {
                    assert(old_rc[poi as int].0 == keys_of(old_rc)[poi as int]);
                    assert(keys_of(old_po)[poi as int] == g);
                } else if (rci as int) < (poi as int) {
                    assert(old_po[rci as int].0 == keys_of(old_po)[rci as int]);
                    assert(keys_of(old_rc)[rci as int] == g);
                }
            }
            lemma_remove(old_po, poi as int);
            lemma_remove(old_rc, rci as int);
            lemma_order_entries(po2);
            assert(order_entries(po2) =~= order_entries(old_po).remove(poi as int));
            lemma_remove(order_entries(old_po), poi as int);
            lemma_entry_determines(order_entries(old_po), poi as int);
            assert(final(self).orders() == old(self).orders().remove(g));
            assert(final(self).instances() == old(self).instances().remove(g));
            assert(final(self).group_order() == old(self).group_order().remove_value(g)) by {
                assert(keys_of(po2) == keys_of(old_po).remove(poi as int));
                assert forall|j: int| 0 <= j < poi as int implies keys_of(old_po)[j] != g by {
                    assert(old_po[j].0 == keys_of(old_po)[j]);
                }
                assert(keys_of(old_po)[poi as int] == g);
                lemma_first_index_remove_value(keys_of(old_po), g, poi as int);
            }
            // the detached membership index reads as the old one with
            // this group's webviews dropped
            assert(final(self).groups_of() == detach_group(old(self).groups_of(), g)) by {
                assert forall|v: WebViewId| #[trigger] has_key(wg2, v) implies has_key(old_wg, v)
                    && value_of(old_wg, v) != g && value_of(wg2, v) == value_of(old_wg, v) by {
                    let a = choose|a: int| 0 <= a < wg2.len() && (#[trigger] wg2[a]).0 == v;
                    lemma_entry_determines(wg2, a);
                    let k = choose|k: int| 0 <= k < old_wg.len() && old_wg[k] == wg2[a];
                    lemma_entry_determines(old_wg, k);
                }
                assert forall|v: WebViewId|
                    has_key(old_wg, v) && value_of(old_wg, v) != g implies #[trigger] has_key(
                    wg2,
                    v,
                ) by {
                    let k = choose|k: int| 0 <= k < old_wg.len() && (#[trigger] old_wg[k]).0 == v;
                    lemma_entry_determines(old_wg, k);
                }
                assert(as_map(wg2) =~= detach_group(as_map(old_wg), g));
            }
            // well-formedness of the torn-down state
            assert(final(self).wf_keys()) by {
                assert(keys_of(po2) =~= keys_of(rc2));
            }
            assert(final(self).wf_membership()) by {
                assert forall|k: int|
                    0 <= k < wg2.len() implies has_key(final(self).webviews@, (
                #[trigger] wg2[k]).0) && has_key(po2, wg2[k].1) by {
                    let k0 = choose|k0: int| 0 <= k0 < old_wg.len() && old_wg[k0] == wg2[k];
                    assert(has_key(old(self).webviews@, old_wg[k0].0));
                    assert(has_key(old_po, old_wg[k0].1));
                    let c = choose|c: int|
                        0 <= c < old_po.len() && (#[trigger] old_po[c]).0 == old_wg[k0].1;
                    assert(c != poi as int);
                    let c2: int = if c < poi as int {
                        c
                    } else {
                        c - 1
                    };
                    assert(po2[c2] == old_po[c]);
                }
            }
            assert(final(self).wf_order_members()) by {
                assert forall|a: int, b: int|
                    0 <= a < po2.len() && 0 <= b < (#[trigger] po2[a]).1@.len() implies has_key(
                    wg2,
                    #[trigger] po2[a].1@[b],
                ) && value_of(wg2, po2[a].1@[b]) == po2[a].0 by {
                    let a0: int = if a < poi as int {
                        a
                    } else {
                        a + 1
                    };
                    assert(po2[a] == old_po[a0]);
                    let x = old_po[a0].1@[b];
                    assert(has_key(old_wg, x) && value_of(old_wg, x) == old_po[a0].0);
                    let k = choose|k: int| 0 <= k < old_wg.len() && (#[trigger] old_wg[k]).0 == x;
                    lemma_entry_determines(old_wg, k);
                    assert(old_wg[k].1 == old_po[a0].0);
                    assert(old_po[a0].0 != g);
                    assert(has_key(wg2, x));
                    let a2 = choose|a2: int| 0 <= a2 < wg2.len() && (#[trigger] wg2[a2]).0 == x;
                    lemma_entry_determines(wg2, a2);
                    let k2 = choose|k2: int| 0 <= k2 < old_wg.len() && old_wg[k2] == wg2[a2];
                    lemma_entry_determines(old_wg, k2);
                }
            }
            assert(final(self).wf_order_no_dups()) by {
                assert forall|a: int| 0 <= a < po2.len() implies (
                #[trigger] po2[a]).1@.no_duplicates() by {
                    let a0: int = if a < poi as int {
                        a
                    } else {
                        a + 1
                    };
                    assert(po2[a] == old_po[a0]);
                }
            }
            assert(final(self).wf_ids()) by {
                let last2 = final(self).last_used_id;
                assert forall|k: int| 0 <= k < rc2.len() implies 1 <= (#[trigger] rc2[k]).0
                    && last2 is Some && rc2[k].0 <= last2->0 by {
                    let k0: int = if k < rci as int {
                        k
                    } else {
                        k + 1
                    };
                    assert(rc2[k] == old_rc[k0]);
                }
            }
        }
        Ok(rc_pair.1)
    }

    /// Finds the painting-order entry of the group that owns a webview:
    /// the webview must be registered and must have a group assignment.
    fn locate_order_entry(&self, webview_id: WebViewId) -> (r: Option<usize>)
        requires
            self.wf(),
        ensures
            match r {
                Some(poi) => {
                    &&& self.views().contains_key(webview_id)
                    &&& self.groups_of().contains_key(webview_id)
                    &&& 0 <= poi < self.painting_order@.len()
                    &&& self.painting_order@[poi as int].0 == self.groups_of()[webview_id]
                    &&& self.orders().contains_key(self.groups_of()[webview_id])
                    &&& self.orders()[self.groups_of()[webview_id]]
                        == self.painting_order@[poi as int].1@
                },
                None => !(self.views().contains_key(webview_id)
                    && self.groups_of().contains_key(webview_id)),
            },
    {
        if find_webview_key(&self.webviews, webview_id).is_none() {
            return None;
        }
        match find_webview_key(&self.webview_groups, webview_id) {
            None => None,
            Some(gi) => {
                proof {
                    lemma_entry_determines(self.webview_groups@, gi as int);
                }
                let g = self.webview_groups[gi].1;
                match find_u64_key(&self.painting_order, g) {
                    None => {
                        proof {
                            assert(has_key(self.painting_order@, g));
                            assert(false);
                        }
                        None
                    },
                    Some(poi) => {
                        proof {
                            let i = choose|i: int|
                                0 <= i < self.webviews@.len() && (#[trigger] self.webviews@[i]).0
                                    == webview_id;
                            lemma_entry_determines(self.webviews@, i);
                            lemma_order_entries(self.painting_order@);
                            lemma_entry_determines(self.painting_order@, poi as int);
                            lemma_entry_determines(order_entries(self.painting_order@), poi as int);
                        }
                        Some(poi)
                    },
                }
            },
        }
    }

    /// Makes a webview visible: appends it to its group's painting order
    /// (topmost) unless it is already visible.  Returns whether the
    /// painting order actually changed; fails when the webview is not
    /// registered or has no rendering group.
    pub fn show(&mut self, webview_id: WebViewId) -> (r: Result<bool, UnknownWebView>)
        requires
            old(self).wf(),
        ensures
            final(self).wf(),
            match r {
                Ok(changed) => {
                    &&& old(self).views().contains_key(webview_id)
                    &&& old(self).groups_of().contains_key(webview_id)
                    &&& old(self).orders().contains_key(old(self).groups_of()[webview_id])
                    &&& changed == show_changes(
                        old(self).orders()[old(self).groups_of()[webview_id]],
                        webview_id,
                    )
                    &&& final(self).orders() == old(self).orders().insert(
                        old(self).groups_of()[webview_id],
                        shown_order(
                            old(self).orders()[old(self).groups_of()[webview_id]],
                            webview_id,
                        ),
                    )
                    &&& final(self).views() == old(self).views()
                    &&& final(self).groups_of() == old(self).groups_of()
                    &&& final(self).instances() == old(self).instances()
                    &&& final(self).group_order() == old(self).group_order()
                    &&& final(self).registration_order() == old(self).registration_order()
                    &&& final(self).last_group_id() == old(self).last_group_id()
                },
                Err(e) => {
                    &&& e == UnknownWebView(webview_id)
                    &&& !(old(self).views().contains_key(webview_id) && old(
                        self,
                    ).groups_of().contains_key(webview_id))
                    &&& *final(self) == *old(self)
                },
            },
    {
        match self.locate_order_entry(webview_id) {
            None => Err(UnknownWebView(webview_id)),
            Some(poi) => {
                let ghost old_po = self.painting_order@;
                let ghost g = old_po[poi as int].0;
                proof {
                    lemma_order_entries(old_po);
                    lemma_entry_determines(order_entries(old_po), poi as int);
                }
                match order_index_of(&self.painting_order[poi].1, webview_id) {
                    Some(_) => {
                        proof {
                            assert(old(self).orders().insert(g, shown_order(old_po[poi as int].1@, webview_id)) =~= old(self).orders());
                        }
                        Ok(false)
                    },
                    None => {
                        let entry = vec_index_mut(&mut self.painting_order, poi);
                        entry.1.push(webview_id);
                        proof {
                            let new_seq = old_po[poi as int].1@.push(webview_id);
                            assert forall|j: int| 0 <= j < new_seq.len() implies has_key(
                                old(self).webview_groups@,
                                #[trigger] new_seq[j],
                            ) && value_of(old(self).webview_groups@, new_seq[j]) == g by {
                                if j < old_po[poi as int].1@.len() {
                                    assert(new_seq[j] == old_po[poi as int].1@[j]);
                                } else {
                                    assert(new_seq[j] == webview_id);
                                }
                            }
                            assert(new_seq.no_duplicates()) by {
                                let prior = old_po[poi as int].1@;
                                assert forall|a: int, b: int|
                                    0 <= a < new_seq.len() && 0 <= b < new_seq.len() && a != b
                                    implies new_seq[a] != new_seq[b] by {
                                    if a < prior.len() && b < prior.len() {
                                    } else if a < prior.len() {
                                        assert(prior.contains(new_seq[a]));
                                    } else if b < prior.len() {
                                        assert(prior.contains(new_seq[b]));
                                    }
                                }
                            }
                            lemma_wf_update_order(*old(self), *self, poi as int, new_seq);
                        }
                        Ok(true)
                    },
                }
            },
        }
    }

    /// Hides a webview: removes it from its group's painting order if it
    /// is visible.  The webview stays registered and grouped; only its
    /// visibility changes.  Returns whether the painting order actually
    /// changed; fails when the webview is not registered or has no
    /// rendering group.
    pub fn hide_webview(&mut self, webview_id: WebViewId) -> (r: Result<bool, UnknownWebView>)
        requires
            old(self).wf(),
        ensures
            final(self).wf(),
            match r {
                Ok(changed) => {
                    &&& old(self).views().contains_key(webview_id)
                    &&& old(self).groups_of().contains_key(webview_id)
                    &&& old(self).orders().contains_key(old(self).groups_of()[webview_id])
                    &&& changed == hide_changes(
                        old(self).orders()[old(self).groups_of()[webview_id]],
                        webview_id,
                    )
                    &&& final(self).orders() == old(self).orders().insert(
                        old(self).groups_of()[webview_id],
                        hidden_order(
                            old(self).orders()[old(self).groups_of()[webview_id]],
                            webview_id,
                        ),
                    )
                    &&& final(self).views() == old(self).views()
                    &&& final(self).groups_of() == old(self).groups_of()
                    &&& final(self).instances() == old(self).instances()
                    &&& final(self).group_order() == old(self).group_order()
                    &&& final(self).registration_order() == old(self).registration_order()
                    &&& final(self).last_group_id() == old(self).last_group_id()
                },
                Err(e) => {
                    &&& e == UnknownWebView(webview_id)
                    &&& !(old(self).views().contains_key(webview_id) && old(
                        self,
                    ).groups_of().contains_key(webview_id))
                    &&& *final(self) == *old(self)
                },
            },
    {
        match self.locate_order_entry(webview_id) {
            None => Err(UnknownWebView(webview_id)),
            Some(poi) => {
                let ghost old_po = self.painting_order@;
                let ghost g = old_po[poi as int].0;
                proof {
                    lemma_order_entries(old_po);
                    lemma_entry_determines(order_entries(old_po), poi as int);
                }
                match order_index_of(&self.painting_order[poi].1, webview_id) {
                    None => {
                        proof {
                            old_po[poi as int].1@.index_of_first_ensures(webview_id);
                            assert(old(self).orders().insert(
                                g,
                                hidden_order(old_po[poi as int].1@, webview_id),
                            ) =~= old(self).orders());
                        }
                        Ok(false)
                    },
                    Some(idx) => {
                        let entry = vec_index_mut(&mut self.painting_order, poi);
                        entry.1.remove(idx);
                        proof {
                            let prior = old_po[poi as int].1@;
                            let new_seq = prior.remove(idx as int);
                            lemma_first_index_remove_value(prior, webview_id, idx as int);
                            lemma_remove_at_no_duplicates(prior, idx as int);
                            prior.remove_ensures(idx as int);
                            assert forall|j: int| 0 <= j < new_seq.len() implies has_key(
                                old(self).webview_groups@,
                                #[trigger] new_seq[j],
                            ) && value_of(old(self).webview_groups@, new_seq[j]) == g by {
                                let j0: int = if j < idx as int {
                                    j
                                } else {
                                    j + 1
                                };
                                assert(new_seq[j] == prior[j0]);
                            }
                            lemma_wf_update_order(*old(self), *self, poi as int, new_seq);
                        }
                        Ok(true)
                    },
                }
            },
        }
    }

    /// Raises a webview to the top of its group's painting order.  When
    /// the webview is already topmost nothing changes; otherwise it is
    /// removed from the order if present and appended, so it ends up
    /// last (topmost).  Returns whether the painting order actually
    /// changed; fails when the webview is not registered or has no
    /// rendering group.
    pub fn raise_to_top(&mut self, webview_id: WebViewId) -> (r: Result<bool, UnknownWebView>)
        requires
            old(self).wf(),
        ensures
            final(self).wf(),
            match r {
                Ok(changed) => {
                    &&& old(self).views().contains_key(webview_id)
                    &&& old(self).groups_of().contains_key(webview_id)
                    &&& old(self).orders().contains_key(old(self).groups_of()[webview_id])
                    &&& changed == raise_changes(
                        old(self).orders()[old(self).groups_of()[webview_id]],
                        webview_id,
                    )
                    &&& final(self).orders() == old(self).orders().insert(
                        old(self).groups_of()[webview_id],
                        raised_order(
                            old(self).orders()[old(self).groups_of()[webview_id]],
                            webview_id,
                        ),
                    )
                    &&& final(self).views() == old(self).views()
                    &&& final(self).groups_of() == old(self).groups_of()
                    &&& final(self).instances() == old(self).instances()
                    &&& final(self).group_order() == old(self).group_order()
                    &&& final(self).registration_order() == old(self).registration_order()
                    &&& final(self).last_group_id() == old(self).last_group_id()
                },
                Err(e) => {
                    &&& e == UnknownWebView(webview_id)
                    &&& !(old(self).views().contains_key(webview_id) && old(
                        self,
                    ).groups_of().contains_key(webview_id))
                    &&& *final(self) == *old(self)
                },
            },
    {
        match self.locate_order_entry(webview_id) {
            None => Err(UnknownWebView(webview_id)),
            Some(poi) => {
                let ghost old_po = self.painting_order@;
                let ghost g = old_po[poi as int].0;
                proof {
                    lemma_order_entries(old_po);
                    lemma_entry_determines(order_entries(old_po), poi as int);
                }
                let n = self.painting_order[poi].1.len();
                if n > 0 && self.painting_order[poi].1[n - 1] == webview_id {
                    proof {
                        assert(old_po[poi as int].1@.last() == webview_id);
                        assert(old(self).orders().insert(
                            g,
                            raised_order(old_po[poi as int].1@, webview_id),
                        ) =~= old(self).orders());
                    }
                    Ok(false)
                } else {
                    let entry = vec_index_mut(&mut self.painting_order, poi);
                    let ghost prior = old_po[poi as int].1@;
                    let ghost middle = prior.remove_value(webview_id);
                    match order_index_of(&entry.1, webview_id) {
                        Some(idx) => {
                            entry.1.remove(idx);
                            proof {
                                lemma_first_index_remove_value(prior, webview_id, idx as int);
                                lemma_remove_at_no_duplicates(prior, idx as int);
                                prior.remove_ensures(idx as int);
                                assert(entry.1@ == middle);
                            }
                        },
                        None => {
                            proof {
                                prior.index_of_first_ensures(webview_id);
                                assert(entry.1@ == middle);
                            }
                        },
                    }
                    entry.1.push(webview_id);
                    proof {
                        let new_seq = middle.push(webview_id);
                        assert(entry.1@ == new_seq);
                        assert(!middle.contains(webview_id)) by {
                            if prior.contains(webview_id) {
                                prior.index_of_first_ensures(webview_id);
                                let fi = prior.index_of_first(webview_id)->0;
                                lemma_remove_at_no_duplicates(prior, fi);
                            }
                        }
                        assert forall|j: int| 0 <= j < new_seq.len() implies has_key(
                            old(self).webview_groups@,
                            #[trigger] new_seq[j],
                        ) && value_of(old(self).webview_groups@, new_seq[j]) == g by {
                            if j < middle.len() {
                                assert(new_seq[j] == middle[j]);
                                if prior.contains(webview_id) {
                                    prior.index_of_first_ensures(webview_id);
                                    let fi = prior.index_of_first(webview_id)->0;
                                    prior.remove_ensures(fi);
                                    let j0: int = if j < fi {
                                        j
                                    } else {
                                        j + 1
                                    };
                                    assert(middle[j] == prior[j0]);
                                } else {
                                    prior.index_of_first_ensures(webview_id);
                                    assert(middle[j] == prior[j]);
                                }
                            } else {
                                assert(new_seq[j] == webview_id);
                            }
                        }
                        assert(new_seq.no_duplicates()) by {
                            assert forall|a: int, b: int|
                                0 <= a < new_seq.len() && 0 <= b < new_seq.len() && a != b
                                implies new_seq[a] != new_seq[b] by {
                                if prior.contains(webview_id) {
                                    prior.index_of_first_ensures(webview_id);
                                    let fi = prior.index_of_first(webview_id)->0;
                                    lemma_remove_at_no_duplicates(prior, fi);
                                } else {
                                    prior.index_of_first_ensures(webview_id);
                                }
                                if a < middle.len() && b < middle.len() {
                                } else if a < middle.len() {
                                    assert(middle.contains(new_seq[a]));
                                } else if b < middle.len() {
                                    assert(middle.contains(new_seq[b]));
                                }
                            }
                        }
                        assert(raised_order(prior, webview_id) == new_seq);
                        lemma_wf_update_order(*old(self), *self, poi as int, new_seq);
                    }
                    Ok(true)
                }
            },
        }
    }

    /// Clears the entire painting order of one rendering group, hiding
    /// every webview shown in it.  Returns whether the order was
    /// non-empty beforehand; fails when the group is unknown.
    pub fn hide_all(&mut self, group_id: RenderingGroupId) -> (r: Result<
        bool,
        UnknownRenderingGroup,
    >)
        requires
            old(self).wf(),
        ensures
            final(self).wf(),
            match r {
                Ok(changed) => {
                    &&& old(self).orders().contains_key(group_id)
                    &&& changed == (old(self).orders()[group_id].len() > 0)
                    &&& final(self).orders() == old(self).orders().insert(
                        group_id,
                        Seq::<WebViewId>::empty(),
                    )
                    &&& final(self).views() == old(self).views()
                    &&& final(self).groups_of() == old(self).groups_of()
                    &&& final(self).instances() == old(self).instances()
                    &&& final(self).group_order() == old(self).group_order()
                    &&& final(self).registration_order() == old(self).registration_order()
                    &&& final(self).last_group_id() == old(self).last_group_id()
                },
                Err(e) => {
                    &&& e == UnknownRenderingGroup(group_id)
                    &&& !old(self).orders().contains_key(group_id)
                    &&& *final(self) == *old(self)
                },
            },
    {
        proof {
            lemma_order_entries(self.painting_order@);
        }
        match find_u64_key(&self.painting_order, group_id) {
            None => Err(UnknownRenderingGroup(group_id)),
            Some(poi) => {
                let ghost old_po = self.painting_order@;
                proof {
                    lemma_entry_determines(order_entries(old_po), poi as int);
                }
                let entry = vec_index_mut(&mut self.painting_order, poi);
                let changed = entry.1.len() > 0;
                entry.1.clear();
                proof {
                    lemma_wf_update_order(
                        *old(self),
                        *self,
                        poi as int,
                        Seq::<WebViewId>::empty(),
                    );
                }
                Ok(changed)
            },
        }
    }

    /// The payload registered for a webview, if any.
    pub fn get(&self, webview_id: WebViewId) -> (r: Option<&WebView>)
        requires
            self.wf(),
        ensures
            match r {
                Some(w) => self.views().contains_key(webview_id) && *w == self.views()[webview_id],
                None => !self.views().contains_key(webview_id),
            },
    {
        match find_webview_key(&self.webviews, webview_id) {
            Some(i) => {
                proof {
                    lemma_entry_determines(self.webviews@, i as int);
                }
                Some(&self.webviews[i].1)
            },
            None => None,
        }
    }
}

} // verus!
