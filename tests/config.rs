use minigrep::config::INSUFFICIENT_ARGUMENTS;
use minigrep::Config;

fn tokens(v: &[&str]) -> Vec<String> {
    v.iter().map(|s| s.to_string()).collect()
}

#[test]
fn config_takes_query_and_path() {
    let args = tokens(&["minigrep", "duct", "poem.txt"]);
    let c = Config::new(&args).ok().unwrap();
    assert_eq!(c.query, "duct");
    assert_eq!(c.filename, "poem.txt");
}

#[test]
fn config_ignores_extra_tokens() {
    let args = tokens(&["minigrep", "a", "b", "c"]);
    let c = Config::new(&args).ok().unwrap();
    assert_eq!(c.query, "a");
    assert_eq!(c.filename, "b");
}

#[test]
fn config_rejects_too_few_tokens() {
    for n in 0..3 {
        let args = tokens(&["minigrep", "duct", "poem.txt"][..n]);
        match Config::new(&args) {
            Err(e) => assert_eq!(e, INSUFFICIENT_ARGUMENTS),
            Ok(_) => panic!("accepted {} tokens", n),
        }
    }
    assert_eq!(INSUFFICIENT_ARGUMENTS, "insufficient arguments");
}
