use jira_etl::common::{
    env_default, get_conf, num_cpus_from, parse_usize, str_equals, target_cores,
};
use jira_etl::factory::{
    channel_capacity, choose_consumer, flag_is_true, jira_envs_present, skip_pandoc_flag,
    ConsumerChoice,
};

#[test]
fn defaults_of_known_settings() {
    assert_eq!(env_default("DEST_BUCKET"), Some("jira-cleaned-for-inference"));
    assert_eq!(env_default("PRODUCER_BATCH_SIZE"), Some("15"));
    assert_eq!(env_default("PRODUCER_WAIT"), Some("1000"));
    assert_eq!(env_default("SKIP_PANDOC"), Some("false"));
    assert_eq!(env_default("JIRA_TOKEN"), Some(""));
    assert_eq!(env_default("UNKNOWN"), None);
    assert_eq!(env_default("dest_bucket"), None);
}

#[test]
fn environment_overrides_default() {
    assert_eq!(get_conf("PRODUCER_BATCH_SIZE", None), "15");
    assert_eq!(get_conf("PRODUCER_BATCH_SIZE", Some("7".to_string())), "7");
    assert_eq!(get_conf("DEBUG_DIR", Some(String::new())), "");
}

#[test]
fn string_equality() {
    assert!(str_equals("abc", "abc"));
    assert!(!str_equals("abc", "abd"));
    assert!(!str_equals("abc", "ab"));
    assert!(str_equals("", ""));
}

#[test]
fn parse_decimal_sizes() {
    assert_eq!(parse_usize("15"), Some(15));
    assert_eq!(parse_usize("+7"), Some(7));
    assert_eq!(parse_usize("007"), Some(7));
    assert_eq!(parse_usize("0"), Some(0));
    assert_eq!(parse_usize(""), None);
    assert_eq!(parse_usize("+"), None);
    assert_eq!(parse_usize("-1"), None);
    assert_eq!(parse_usize("12a"), None);
    assert_eq!(parse_usize(" 1"), None);
    assert_eq!(parse_usize(&usize::MAX.to_string()), Some(usize::MAX));
    assert_eq!(parse_usize(&format!("{}0", usize::MAX)), None);
    for s in ["1", "42", "+42", "", "x", "999999999999999999999999"] {
        assert_eq!(parse_usize(s), s.parse::<usize>().ok());
    }
}

#[test]
fn cpus() {
    assert_eq!(num_cpus_from(Some(8)), 8);
    assert_eq!(num_cpus_from(None), 1);
    assert_eq!(target_cores(4), vec![1, 2]);
    assert_eq!(target_cores(16), vec![1, 2]);
    assert_eq!(target_cores(3), vec![0]);
    assert_eq!(target_cores(1), vec![0]);
}

#[test]
fn channel_size() {
    assert_eq!(channel_capacity(15), 30);
    assert_eq!(channel_capacity(0), 0);
}

#[test]
fn jira_settings_required() {
    assert!(jira_envs_present("https://jira", "project=X", "tok"));
    assert!(!jira_envs_present("", "project=X", "tok"));
    assert!(!jira_envs_present("https://jira", "", "tok"));
    assert!(!jira_envs_present("https://jira", "project=X", ""));
}

#[test]
fn skip_pandoc_setting() {
    assert!(skip_pandoc_flag("true"));
    assert!(skip_pandoc_flag("TRUE"));
    assert!(skip_pandoc_flag("True"));
    assert!(!skip_pandoc_flag("false"));
    assert!(!skip_pandoc_flag("yes"));
    assert!(!skip_pandoc_flag(""));
    assert!(flag_is_true("true"));
    assert!(!flag_is_true("TRUE"));
}

#[test]
fn consumer_choice() {
    match choose_consumer("out".to_string(), "b".to_string(), "p/".to_string()) {
        ConsumerChoice::Disk { dir } => assert_eq!(dir, "out"),
        ConsumerChoice::S3 { .. } => panic!("debug dir set"),
    }
    match choose_consumer(String::new(), "b".to_string(), "p/".to_string()) {
        ConsumerChoice::S3 { bucket, prefix } => {
            assert_eq!(bucket, "b");
            assert_eq!(prefix, "p/");
        }
        ConsumerChoice::Disk { .. } => panic!("no debug dir"),
    }
}
