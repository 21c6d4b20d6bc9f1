use regex_nfa::nfa::tagged::shared::{
    is_word_char, LookaroundCache, TaggedNfaContext, ThreadWorklist, MAX_THREADS,
};

#[test]
fn word_chars() {
    assert!(is_word_char(b'a'));
    assert!(is_word_char(b'Z'));
    assert!(is_word_char(b'7'));
    assert!(is_word_char(b'_'));
    assert!(!is_word_char(b'-'));
    assert!(!is_word_char(b' '));
    assert!(!is_word_char(0xC3));
}

#[test]
fn worklist_threads_and_captures() {
    let mut w = ThreadWorklist::new(2, 10);
    assert_eq!(w.stride(), 6);
    assert_eq!(w.count, 0);
    let t = w.add_thread(4, 7).unwrap();
    assert_eq!(t, 0);
    assert_eq!(w.states[0], 4);
    assert_eq!(w.flags[0], 7);
    assert_eq!(w.get_capture(0, 3), -1);
    w.set_capture(0, 3, 12);
    assert_eq!(w.get_capture(0, 3), 12);
    let u = w.add_thread(5, 0).unwrap();
    w.copy_captures(t, u);
    assert_eq!(w.get_capture(u, 3), 12);
    w.clear();
    assert_eq!(w.count, 0);
    assert_eq!(w.get_capture(1, 3), -1);
}

#[test]
fn worklist_is_bounded() {
    let mut w = ThreadWorklist::new(0, 1);
    for i in 0..MAX_THREADS {
        assert_eq!(w.add_thread(0, 0), Some(i));
    }
    assert_eq!(w.add_thread(0, 0), None);
    assert_eq!(w.count, MAX_THREADS);
}

#[test]
fn worklist_visited_map() {
    let mut w = ThreadWorklist::new(0, 100);
    assert!(!w.is_visited(70));
    w.mark_visited(70);
    assert!(w.is_visited(70));
    assert!(!w.is_visited(69));
    // States past the map are never marked.
    w.mark_visited(5000);
    assert!(!w.is_visited(5000));
    w.clear();
    assert!(!w.is_visited(70));
}

#[test]
fn lookaround_cache_reads_back_what_was_written() {
    let mut c = LookaroundCache::new(2, 100);
    assert!(!c.is_computed(1, 65));
    c.set_result(1, 65, true);
    assert!(c.is_computed(1, 65));
    assert!(c.get_result(1, 65));
    assert!(!c.is_computed(0, 65));
    c.set_result(0, 65, false);
    assert!(c.is_computed(0, 65));
    assert!(!c.get_result(0, 65));
    assert!(c.get_result(1, 65));
    c.clear();
    assert!(!c.is_computed(1, 65));
}

#[test]
fn lookaround_cache_later_result_replaces_earlier() {
    let mut c = LookaroundCache::new(2, 100);
    c.set_result(1, 65, true);
    c.set_result(1, 66, true);
    c.set_result(1, 65, false);
    assert!(c.is_computed(1, 65));
    assert!(!c.get_result(1, 65));
    assert!(c.get_result(1, 66));
    c.set_result(1, 65, true);
    assert!(c.get_result(1, 65));
}

#[test]
fn context_reset_and_swap() {
    let mut ctx = TaggedNfaContext::new(1, 8, 1, 16);
    assert_eq!(ctx.stride, 4);
    assert_eq!(ctx.best_end, -1);
    assert_eq!(ctx.get_best_capture(0), None);
    ctx.best_captures[2] = 3;
    ctx.best_captures[3] = 5;
    assert_eq!(ctx.get_best_capture(1), Some((3, 5)));
    assert_eq!(ctx.get_best_capture(7), None);
    ctx.next.add_thread(2, 0);
    ctx.swap_worklists();
    assert_eq!(ctx.current.count, 1);
    assert_eq!(ctx.current.states[0], 2);
    assert_eq!(ctx.next.count, 0);
    ctx.best_end = 9;
    ctx.reset();
    assert_eq!(ctx.best_end, -1);
    assert_eq!(ctx.current.count, 0);
    assert_eq!(ctx.get_best_capture(1), None);
}

#[test]
fn best_capture_of_any_group_index_is_answered() {
    let mut ctx = TaggedNfaContext::new(1, 8, 1, 16);
    ctx.best_captures[2] = 3;
    ctx.best_captures[3] = 5;
    assert_eq!(ctx.get_best_capture(usize::MAX / 2), None);
    assert_eq!(ctx.get_best_capture(usize::MAX), None);
    assert_eq!(ctx.get_best_capture(1), Some((3, 5)));
}
