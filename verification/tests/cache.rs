use tokenbar::cache::{first_step, step_after_token, CacheEntry, LoadStep};

fn entry(token: Option<u64>, has_payload: bool) -> Option<CacheEntry> {
    Some(CacheEntry { token, has_payload })
}

#[test]
fn stale_ok_serves_any_cached_payload() {
    assert!(matches!(first_step(true, &entry(None, true)), LoadStep::UseCache));
    assert!(matches!(first_step(true, &entry(Some(1), false)), LoadStep::CheckToken));
    assert!(matches!(first_step(true, &None), LoadStep::CheckToken));
    assert!(matches!(first_step(false, &entry(Some(1), true)), LoadStep::CheckToken));
}

#[test]
fn fresh_cache_only_for_the_same_token() {
    assert!(matches!(step_after_token(Some(7), &entry(Some(7), true)), LoadStep::UseCache));
    assert!(matches!(
        step_after_token(Some(7), &entry(Some(8), true)),
        LoadStep::RunReport { persist: Some(7) }
    ));
    assert!(matches!(
        step_after_token(Some(7), &entry(Some(7), false)),
        LoadStep::RunReport { persist: Some(7) }
    ));
    assert!(matches!(step_after_token(None, &entry(None, true)), LoadStep::RunReport { persist: None }));
    assert!(matches!(step_after_token(Some(3), &None), LoadStep::RunReport { persist: Some(3) }));
}
