//! The e-mail grammar checked against the regular expression it describes.
use regex::Regex;
use rustify_app::email::is_valid_email;

fn pattern_verdict(re: &Regex, email: &str) -> bool {
    if email.len() > 254 || !re.is_match(email) {
        return false;
    }
    if let Some(domain) = email.split('@').nth(1) {
        if let Some(tld) = domain.split('.').next_back() {
            return tld.len() >= 2;
        }
    }
    false
}

#[test]
fn grammar_agrees_with_pattern() {
    let re = Regex::new(
        r"^[a-zA-Z0-9.!#$%&'*+/=?^_`{|}~-]+@[a-zA-Z0-9](?:[a-zA-Z0-9-]{0,61}[a-zA-Z0-9])?(?:\.[a-zA-Z0-9](?:[a-zA-Z0-9-]{0,61}[a-zA-Z0-9])?)*$",
    )
    .unwrap();
    let samples = [
        "user@example.com", "user.name+tag@example.co.uk", "a@b.c", "a@bc", "@x.io", "x@",
        "x@@y.io", "x@y..io", "x@.y.io", "x@y.io.", "x@-y.io", "x@y-.io", "x@y-z.io",
        "x y@z.io", "x@y z.io", "é@x.io", "x@é.io", "x@1.23", "x@a.b1", "x.y.z@a.b.cd",
        "x@a_b.com", "x@ab", "x@a", "\n@x.io", "x@y.io\n", "{}|~@q.qq",
    ];
    for s in samples.iter() {
        assert_eq!(is_valid_email(s), pattern_verdict(&re, s), "disagree on {:?}", s);
    }
    let mut generated = Vec::new();
    let alphabet = ['a', '1', '-', '.', '@', '_', 'Z'];
    for a in alphabet.iter() {
        for b in alphabet.iter() {
            for c in alphabet.iter() {
                for d in alphabet.iter() {
                    generated.push(format!("{}{}{}{}", a, b, c, d));
                    generated.push(format!("x{}{}@{}{}", a, b, c, d));
                    generated.push(format!("x@{}{}.{}{}", a, b, c, d));
                }
            }
        }
    }
    for label in [61usize, 62, 63, 64, 65] {
        generated.push(format!("u@{}.io", "b".repeat(label)));
        generated.push(format!("u@c{}c.io", "-".repeat(label)));
    }
    for s in generated.iter() {
        assert_eq!(is_valid_email(s), pattern_verdict(&re, s), "disagree on {:?}", s);
    }
}
