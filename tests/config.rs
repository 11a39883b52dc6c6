use secretgen::config::{
    CacheControl, CachePolicy, LengthRange, LogLevel, MarkovError, ModelParameters, Verbosity,
};

#[test]
fn verbosity_picks_the_strongest_switch() {
    let v = |debug, verbose, quiet| Verbosity { debug, verbose, quiet };
    assert_eq!(v(true, false, false).to_filter(), LogLevel::Trace);
    assert_eq!(v(true, true, true).to_filter(), LogLevel::Trace);
    assert_eq!(v(false, true, false).to_filter(), LogLevel::Debug);
    assert_eq!(v(false, false, true).to_filter(), LogLevel::Warn);
    assert_eq!(v(false, false, false).to_filter(), LogLevel::Info);
}

#[test]
fn cache_switches_map_to_policies() {
    let c = |no_cache, rebuild_cache| CacheControl { no_cache, rebuild_cache };
    assert_eq!(c(false, false).policy(), CachePolicy::UseOrBuild);
    assert_eq!(c(true, false).policy(), CachePolicy::Bypass);
    assert_eq!(c(false, true).policy(), CachePolicy::ForceRebuild);
    assert_eq!(c(true, true).policy(), CachePolicy::Bypass);
}

#[test]
fn length_range_validation() {
    assert_eq!(LengthRange { minimum: 2, maximum: 10 }.validate(), Ok(()));
    assert_eq!(LengthRange { minimum: 3, maximum: 3 }.validate(), Ok(()));
    assert_eq!(
        LengthRange { minimum: 5, maximum: 3 }.validate(),
        Err(MarkovError::InvalidRangeError)
    );
    assert_eq!(
        LengthRange { minimum: 0, maximum: 0 }.validate(),
        Err(MarkovError::InvalidRangeError)
    );
}

#[test]
fn model_parameter_validation() {
    let p = |order, prior_millis, backoff| ModelParameters { order, prior_millis, backoff };
    assert_eq!(p(3, 0, false).validate(), Ok(()));
    assert_eq!(p(0, 0, false).validate(), Ok(()));
    assert_eq!(p(0, 0, true).validate(), Err(MarkovError::InvalidRangeError));
    assert_eq!(p(3, 2_000_000_000, false).validate(), Err(MarkovError::InvalidRangeError));
    assert_eq!(p(5000, 0, false).validate(), Err(MarkovError::InvalidRangeError));
}
