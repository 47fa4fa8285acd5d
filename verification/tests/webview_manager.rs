use compositing::ids::{DocumentId, RenderingGroupId, UnknownRenderingGroup, UnknownWebView, WebViewId};
use compositing::webview_manager::{WebRenderInstance, WebViewManager};

fn top_level_id(namespace_id: u32, index: u32) -> WebViewId {
    WebViewId { namespace_id, index }
}

fn instance(id: u32) -> WebRenderInstance<()> {
    WebRenderInstance {
        webrender_document: DocumentId {
            namespace_id: 0,
            id,
        },
        resources: (),
    }
}

fn webviews_sorted(webviews: &WebViewManager<char, ()>) -> Vec<(WebViewId, char)> {
    let mut ids = webviews.webview_ids();
    ids.sort_by_key(|id| (id.namespace_id, id.index));
    ids.iter()
        .map(|&id| (id, *webviews.get(id).unwrap()))
        .collect()
}

fn order_ids(webviews: &WebViewManager<char, ()>, group: RenderingGroupId) -> Vec<WebViewId> {
    webviews
        .painting_order(group)
        .unwrap()
        .iter()
        .map(|(id, _)| *id)
        .collect()
}

#[test]
fn test() {
    let mut webviews = WebViewManager::<char, ()>::new();
    let group = webviews.add_webview_group(instance(1));

    // add_webview() adds the webview to the map, but not the painting order.
    assert!(webviews.add_webview(group, top_level_id(0, 1), 'a').is_ok());
    assert!(webviews.add_webview(group, top_level_id(0, 2), 'b').is_ok());
    assert!(webviews.add_webview(group, top_level_id(0, 3), 'c').is_ok());
    assert!(webviews.get(top_level_id(0, 1)).is_some());
    assert!(webviews.get(top_level_id(0, 2)).is_some());
    assert!(webviews.get(top_level_id(0, 3)).is_some());
    assert_eq!(
        webviews_sorted(&webviews),
        vec![
            (top_level_id(0, 1), 'a'),
            (top_level_id(0, 2), 'b'),
            (top_level_id(0, 3), 'c'),
        ]
    );
    assert!(order_ids(&webviews, group).is_empty());

    // A repeated webview id keeps the payload already stored.
    assert!(webviews.add_webview(group, top_level_id(0, 3), 'd').is_ok());
    assert!(webviews.get(top_level_id(0, 3)).is_some());
    assert_eq!(webviews.get(top_level_id(0, 3)), Some(&'c'));

    // Other methods return UnknownWebView or None if the webview id doesn't exist.
    assert_eq!(
        webviews.remove(top_level_id(1, 1)),
        Err(UnknownWebView(top_level_id(1, 1)))
    );
    assert_eq!(webviews.get(top_level_id(1, 1)), None);
    assert!(webviews.get_mut(top_level_id(1, 1)).is_none());
    assert_eq!(
        webviews.show(top_level_id(1, 1)),
        Err(UnknownWebView(top_level_id(1, 1)))
    );
    assert_eq!(
        webviews.hide_webview(top_level_id(1, 1)),
        Err(UnknownWebView(top_level_id(1, 1)))
    );
    assert_eq!(
        webviews.raise_to_top(top_level_id(1, 1)),
        Err(UnknownWebView(top_level_id(1, 1)))
    );

    // For webviews not yet visible, both show() and raise_to_top() add the given webview on top.
    assert_eq!(webviews.show(top_level_id(0, 2)), Ok(true));
    assert_eq!(webviews.show(top_level_id(0, 2)), Ok(false));
    assert_eq!(order_ids(&webviews, group), vec![top_level_id(0, 2)]);
    assert_eq!(webviews.raise_to_top(top_level_id(0, 1)), Ok(true));
    assert_eq!(webviews.raise_to_top(top_level_id(0, 1)), Ok(false));
    assert_eq!(
        order_ids(&webviews, group),
        vec![top_level_id(0, 2), top_level_id(0, 1)]
    );
    assert_eq!(webviews.show(top_level_id(0, 3)), Ok(true));
    assert_eq!(webviews.show(top_level_id(0, 3)), Ok(false));
    assert_eq!(
        order_ids(&webviews, group),
        vec![top_level_id(0, 2), top_level_id(0, 1), top_level_id(0, 3)]
    );

    // For webviews already visible, show() does nothing, while raise_to_top() makes it on top.
    assert_eq!(webviews.show(top_level_id(0, 1)), Ok(false));
    assert_eq!(
        order_ids(&webviews, group),
        vec![top_level_id(0, 2), top_level_id(0, 1), top_level_id(0, 3)]
    );
    assert_eq!(webviews.raise_to_top(top_level_id(0, 1)), Ok(true));
    assert_eq!(webviews.raise_to_top(top_level_id(0, 1)), Ok(false));
    assert_eq!(
        order_ids(&webviews, group),
        vec![top_level_id(0, 2), top_level_id(0, 3), top_level_id(0, 1)]
    );

    // hide_webview() removes the webview from the painting order, but not the map.
    assert_eq!(webviews.hide_webview(top_level_id(0, 3)), Ok(true));
    assert_eq!(webviews.hide_webview(top_level_id(0, 3)), Ok(false));
    assert_eq!(
        order_ids(&webviews, group),
        vec![top_level_id(0, 2), top_level_id(0, 1)]
    );
    assert_eq!(
        webviews_sorted(&webviews),
        vec![
            (top_level_id(0, 1), 'a'),
            (top_level_id(0, 2), 'b'),
            (top_level_id(0, 3), 'c'),
        ]
    );

    // painting_order() returns only the visible webviews, in painting order.
    let painting_order = webviews.painting_order(group).unwrap();
    assert_eq!(painting_order.len(), 2);
    assert_eq!(painting_order[0], (top_level_id(0, 2), &'b'));
    assert_eq!(painting_order[1], (top_level_id(0, 1), &'a'));
    drop(painting_order);

    // remove() removes the given webview from both the map and the painting order.
    assert!(webviews.remove(top_level_id(0, 1)).is_ok());
    assert!(webviews.remove(top_level_id(0, 2)).is_ok());
    assert!(webviews.remove(top_level_id(0, 3)).is_ok());
    assert!(webviews_sorted(&webviews).is_empty());
    assert!(order_ids(&webviews, group).is_empty());
}

// An id that was never added is unknown to every operation.
#[test]
fn test_unknown_webview_everywhere() {
    let mut webviews = WebViewManager::<char, ()>::new();
    let _group = webviews.add_webview_group(instance(1));
    let stranger = top_level_id(9, 9);
    assert_eq!(webviews.get(stranger), None);
    assert!(webviews.get_mut(stranger).is_none());
    assert_eq!(webviews.group_id(stranger), None);
    assert_eq!(webviews.show(stranger), Err(UnknownWebView(stranger)));
    assert_eq!(webviews.hide_webview(stranger), Err(UnknownWebView(stranger)));
    assert_eq!(webviews.raise_to_top(stranger), Err(UnknownWebView(stranger)));
    assert_eq!(webviews.remove(stranger), Err(UnknownWebView(stranger)));
}

// show() and hide_webview() are idempotent: the second call in a row
// reports no change.
#[test]
fn test_show_hide_idempotent() {
    let mut webviews = WebViewManager::<char, ()>::new();
    let group = webviews.add_webview_group(instance(1));
    let v = top_level_id(0, 1);
    assert!(webviews.add_webview(group, v, 'a').is_ok());
    assert_eq!(webviews.show(v), Ok(true));
    assert_eq!(webviews.show(v), Ok(false));
    assert_eq!(webviews.hide_webview(v), Ok(true));
    assert_eq!(webviews.hide_webview(v), Ok(false));
}

// raise_to_top() of the topmost webview reports no change and keeps the
// order; otherwise it moves the webview to the end and reports a change.
#[test]
fn test_raise_to_top_topmost() {
    let mut webviews = WebViewManager::<char, ()>::new();
    let group = webviews.add_webview_group(instance(1));
    let a = top_level_id(0, 1);
    let b = top_level_id(0, 2);
    assert!(webviews.add_webview(group, a, 'a').is_ok());
    assert!(webviews.add_webview(group, b, 'b').is_ok());
    assert_eq!(webviews.show(a), Ok(true));
    assert_eq!(webviews.show(b), Ok(true));
    assert_eq!(webviews.raise_to_top(b), Ok(false));
    assert_eq!(order_ids(&webviews, group), vec![a, b]);
    assert_eq!(webviews.raise_to_top(a), Ok(true));
    assert_eq!(order_ids(&webviews, group), vec![b, a]);
}

// hide_webview() affects only visibility: the registry still answers.
#[test]
fn test_hide_keeps_registry() {
    let mut webviews = WebViewManager::<char, ()>::new();
    let group = webviews.add_webview_group(instance(1));
    let v = top_level_id(0, 1);
    assert!(webviews.add_webview(group, v, 'a').is_ok());
    assert_eq!(webviews.show(v), Ok(true));
    assert_eq!(webviews.hide_webview(v), Ok(true));
    assert!(order_ids(&webviews, group).is_empty());
    assert_eq!(webviews.get(v), Some(&'a'));
    assert_eq!(webviews.group_id(v), Some(group));
}

// remove() prunes the registry and the painting order at once.
#[test]
fn test_remove_prunes_everything() {
    let mut webviews = WebViewManager::<char, ()>::new();
    let group = webviews.add_webview_group(instance(1));
    let a = top_level_id(0, 1);
    let b = top_level_id(0, 2);
    assert!(webviews.add_webview(group, a, 'a').is_ok());
    assert!(webviews.add_webview(group, b, 'b').is_ok());
    assert_eq!(webviews.show(a), Ok(true));
    assert_eq!(webviews.show(b), Ok(true));
    assert_eq!(webviews.remove(a), Ok('a'));
    assert_eq!(webviews.get(a), None);
    assert_eq!(webviews.group_id(a), None);
    assert_eq!(order_ids(&webviews, group), vec![b]);
}

// A painting order replays the exact sequence of operations.
#[test]
fn test_order_preservation() {
    let mut webviews = WebViewManager::<char, ()>::new();
    let group = webviews.add_webview_group(instance(1));
    let a = top_level_id(0, 1);
    let b = top_level_id(0, 2);
    let c = top_level_id(0, 3);
    assert!(webviews.add_webview(group, a, 'a').is_ok());
    assert!(webviews.add_webview(group, b, 'b').is_ok());
    assert!(webviews.add_webview(group, c, 'c').is_ok());
    assert_eq!(webviews.show(a), Ok(true));
    assert_eq!(webviews.show(b), Ok(true));
    assert_eq!(webviews.show(c), Ok(true));
    assert_eq!(order_ids(&webviews, group), vec![a, b, c]);
    assert_eq!(webviews.hide_webview(b), Ok(true));
    assert_eq!(order_ids(&webviews, group), vec![a, c]);
    assert_eq!(webviews.raise_to_top(a), Ok(true));
    assert_eq!(order_ids(&webviews, group), vec![c, a]);
}

// Webviews of one group never appear in another group's painting order.
#[test]
fn test_session_isolation() {
    let mut webviews = WebViewManager::<char, ()>::new();
    let g1 = webviews.add_webview_group(instance(1));
    let g2 = webviews.add_webview_group(instance(2));
    assert_ne!(g1, g2);
    let a = top_level_id(0, 1);
    let b = top_level_id(0, 2);
    assert!(webviews.add_webview(g1, a, 'a').is_ok());
    assert!(webviews.add_webview(g2, b, 'b').is_ok());
    assert_eq!(webviews.show(a), Ok(true));
    assert_eq!(webviews.show(b), Ok(true));
    assert_eq!(webviews.raise_to_top(a), Ok(false));
    assert_eq!(order_ids(&webviews, g1), vec![a]);
    assert_eq!(order_ids(&webviews, g2), vec![b]);
    assert_eq!(webviews.group_id(a), Some(g1));
    assert_eq!(webviews.group_id(b), Some(g2));
}

// The scenario of one session over one surface, three webviews.
#[test]
fn test_session_scenario() {
    let mut webviews = WebViewManager::<&'static str, ()>::new();
    let s1 = webviews.add_webview_group(WebRenderInstance {
        webrender_document: DocumentId {
            namespace_id: 1,
            id: 7,
        },
        resources: (),
    });
    let v1 = top_level_id(0, 1);
    let v2 = top_level_id(0, 2);
    let v3 = top_level_id(0, 3);
    assert!(webviews.add_webview(s1, v1, "v1").is_ok());
    assert!(webviews.add_webview(s1, v2, "v2").is_ok());
    assert!(webviews.add_webview(s1, v3, "v3").is_ok());
    assert_eq!(webviews.show(v2), Ok(true));
    assert_eq!(webviews.show(v2), Ok(false));
    assert_eq!(webviews.raise_to_top(v1), Ok(true));
    let order: Vec<WebViewId> = webviews
        .painting_order(s1)
        .unwrap()
        .iter()
        .map(|(id, _)| *id)
        .collect();
    assert_eq!(order, vec![v2, v1]);
    assert_eq!(webviews.show(v3), Ok(true));
    let order: Vec<WebViewId> = webviews
        .painting_order(s1)
        .unwrap()
        .iter()
        .map(|(id, _)| *id)
        .collect();
    assert_eq!(order, vec![v2, v1, v3]);
    assert_eq!(webviews.raise_to_top(v1), Ok(true));
    let order: Vec<WebViewId> = webviews
        .painting_order(s1)
        .unwrap()
        .iter()
        .map(|(id, _)| *id)
        .collect();
    assert_eq!(order, vec![v2, v3, v1]);
    assert_eq!(webviews.hide_webview(v3), Ok(true));
    let order: Vec<WebViewId> = webviews
        .painting_order(s1)
        .unwrap()
        .iter()
        .map(|(id, _)| *id)
        .collect();
    assert_eq!(order, vec![v2, v1]);
    assert_eq!(webviews.remove(v1), Ok("v1"));
    let order: Vec<WebViewId> = webviews
        .painting_order(s1)
        .unwrap()
        .iter()
        .map(|(id, _)| *id)
        .collect();
    assert_eq!(order, vec![v2]);
}

// Group ids start at 1, grow by one, and are not reused after teardown.
#[test]
fn test_group_lifecycle() {
    let mut webviews = WebViewManager::<char, ()>::new();
    let g1 = webviews.add_webview_group(instance(10));
    let g2 = webviews.add_webview_group(instance(20));
    assert_eq!(g1, 1);
    assert_eq!(g2, 2);
    assert_eq!(webviews.groups(), vec![1, 2]);

    let v = top_level_id(0, 1);
    assert!(webviews.add_webview(g1, v, 'a').is_ok());
    assert_eq!(
        webviews.document_id(&v),
        DocumentId {
            namespace_id: 0,
            id: 10,
        }
    );
    assert_eq!(
        webviews.render_instance(g2).webrender_document,
        DocumentId {
            namespace_id: 0,
            id: 20,
        }
    );

    // Registration into a group that was never created is refused.
    assert_eq!(
        webviews.add_webview(77, top_level_id(0, 9), 'z'),
        Err(UnknownRenderingGroup(77))
    );

    // hide_all() clears a group's whole painting order at once.
    assert_eq!(webviews.show(v), Ok(true));
    assert_eq!(webviews.hide_all(g1), Ok(true));
    assert_eq!(webviews.hide_all(g1), Ok(false));
    assert_eq!(webviews.hide_all(77), Err(UnknownRenderingGroup(77)));
    assert!(order_ids(&webviews, g1).is_empty());

    // Teardown orphans the group's webviews but keeps them registered,
    // and the group id is never handed out again.
    assert_eq!(webviews.show(v), Ok(true));
    let torn_down = webviews.remove_webview_group(g1).unwrap();
    assert_eq!(
        torn_down.webrender_document,
        DocumentId {
            namespace_id: 0,
            id: 10,
        }
    );
    assert_eq!(webviews.groups(), vec![2]);
    assert_eq!(webviews.get(v), Some(&'a'));
    assert_eq!(webviews.group_id(v), None);
    assert_eq!(webviews.show(v), Err(UnknownWebView(v)));
    match webviews.remove_webview_group(g1) {
        Err(e) => assert_eq!(e, UnknownRenderingGroup(g1)),
        Ok(_) => panic!("tearing a dead group down twice must fail"),
    }
    let g3 = webviews.add_webview_group(instance(30));
    assert_eq!(g3, 3);

    // deinit() releases every remaining instance, in creation order,
    // and orphans the webviews without removing them from the registry.
    let released = webviews.deinit();
    let documents: Vec<u32> = released.iter().map(|i| i.webrender_document.id).collect();
    assert_eq!(documents, vec![20, 30]);
    assert!(webviews.groups().is_empty());
    assert_eq!(webviews.webview_ids(), vec![v]);
    assert_eq!(webviews.get(v), Some(&'a'));
    assert_eq!(webviews.group_id(v), None);
}

// The instance table lists every live group's pipeline, in creation
// order, and the id counter reports the last id handed out.
#[test]
fn test_instances_and_id_counter() {
    let mut webviews = WebViewManager::<char, ()>::new();
    assert_eq!(webviews.last_used_id(), None);
    let _g1 = webviews.add_webview_group(instance(10));
    let g2 = webviews.add_webview_group(instance(20));
    assert_eq!(webviews.last_used_id(), Some(g2));
    let documents: Vec<u32> = webviews
        .rendering_contexts()
        .iter()
        .map(|i| i.webrender_document.id)
        .collect();
    assert_eq!(documents, vec![10, 20]);
}

// The payload handle from get_mut() writes through to the registry.
#[test]
fn test_get_mut_writes_through() {
    let mut webviews = WebViewManager::<char, ()>::new();
    let group = webviews.add_webview_group(instance(1));
    let v = top_level_id(0, 1);
    assert!(webviews.add_webview(group, v, 'a').is_ok());
    *webviews.get_mut(v).unwrap() = 'z';
    assert_eq!(webviews.get(v), Some(&'z'));
}
