use clams_bin::pelican_frontmatter::pelican::{self, parse_front_matter};
use clams_bin::pelican_frontmatter::{adapt_pelican_frontmatter, ApfError, FrontMatter, FrontMatterType};

fn raw_from(pairs: &[(&str, &str)]) -> pelican::FrontMatter {
    let mut fm = pelican::FrontMatter::new();
    for (k, v) in pairs {
        fm.insert(k.to_string(), v.to_string());
    }
    fm
}

fn normalized_from(pairs: Vec<(&str, FrontMatterType)>) -> FrontMatter {
    let mut fm = FrontMatter::new();
    for (k, v) in pairs {
        fm.insert(k.to_string(), v);
    }
    fm
}

fn value(s: &str) -> FrontMatterType {
    FrontMatterType::Value(s.to_string())
}

fn list(items: &[&str]) -> FrontMatterType {
    FrontMatterType::List(items.iter().map(|s| s.to_string()).collect())
}

#[test]
fn parse_front_matter_empty() {
    let front_matter = String::from("");
    let expected = pelican::FrontMatter::new();

    let front_matter: Vec<String> = front_matter.lines().map(|l| l.to_string()).collect();
    let res = parse_front_matter(front_matter.as_slice());

    assert!(res.is_ok());
    assert_eq!(res.unwrap(), expected);
}

#[test]
fn parse_front_matter_ok() {
    let front_matter = String::from(
        "Title: With Proper TDD, You Get That\n\
         Date: 2012-07-27 12:00\n\
         Author: lukas\n\
         Category: Allgemein, Test Driving\n\
         Tags: TDD, Testing\n\
         Slug: with-proper-tdd-you-get-that\n\
         Status: published",
    );
    let expected = raw_from(&[
        ("Title", "With Proper TDD, You Get That"),
        ("Date", "2012-07-27 12:00"),
        ("Author", "lukas"),
        ("Category", "Allgemein, Test Driving"),
        ("Tags", "TDD, Testing"),
        ("Slug", "with-proper-tdd-you-get-that"),
        ("Status", "published"),
    ]);

    let front_matter: Vec<String> = front_matter.lines().map(|l| l.to_string()).collect();
    let res = parse_front_matter(front_matter.as_slice());

    assert!(res.is_ok());
    assert_eq!(res.unwrap(), expected);
}

#[test]
fn from_pelican_frontmatter() {
    let pelican = raw_from(&[
        ("Title", "With Proper TDD, You Get That"),
        ("Date", "2012-07-27 12:00"),
        ("Author", "lukas"),
        ("Category", "Allgemein, Test Driving"),
        ("Tags", "TDD, Testing"),
        ("Slug", "with-proper-tdd-you-get-that"),
        ("Status", "published"),
    ]);

    let expected = normalized_from(vec![
        ("title", value("With Proper TDD, You Get That")),
        ("date", value("2012-07-27 12:00")),
        ("author", value("lukas")),
        ("categories", list(&["Allgemein", "Test Driving"])),
        ("tags", list(&["TDD", "Testing"])),
        ("status", value("published")),
    ]);

    let frontmatter = FrontMatter::from_pelican(pelican);

    assert_eq!(frontmatter, expected);
}

#[test]
fn write_frontmatter() {
    let frontmatter = normalized_from(vec![
        ("title", value("With Proper TDD, You Get That")),
        ("date", value("2012-07-27 12:00")),
        ("author", value("lukas")),
        ("categories", list(&["Allgemein", "Test Driving"])),
        ("tags", list(&["TDD", "Testing"])),
        ("slug", value("with-proper-tdd-you-get-that")),
        ("status", value("published")),
    ]);

    let expected = String::from(
        "---\n\
         author: \"lukas\"\n\
         categories:\n\
         - \"Allgemein\"\n\
         - \"Test Driving\"\n\
         date: \"2012-07-27 12:00\"\n\
         slug: \"with-proper-tdd-you-get-that\"\n\
         status: \"published\"\n\
         tags:\n\
         - \"TDD\"\n\
         - \"Testing\"\n\
         title: \"With Proper TDD, You Get That\"\n\
         ---\n",
    );

    let res = frontmatter.write();

    assert_eq!(res, expected);
}

#[test]
fn adapt_pelican_frontmatter_use_case_okay() {
    let src = String::from(
        "Title: With Proper TDD, You Get That\n\
         Date: 2012-07-27 12:00\n\
         Author: lukas\n\
         Category: Allgemein, Test Driving\n\
         Tags: TDD, Testing\n\
         Slug: with-proper-tdd-you-get-that\n\
         Status: published\n\
         \n\
         Dariusz Pasciak describes [how developing software without TDD is\n\
         like](http://blog.8thlight.com/dariusz-pasciak/2012/07/18/with-proper-tdd-you-get-that.html \"With Proper TDD, You Get That\")\n\
         and concludes:\n\
         \n\
         End.\n",
    );
    let expected = String::from(
        "---\n\
         author: \"lukas\"\n\
         categories:\n\
         - \"Allgemein\"\n\
         - \"Test Driving\"\n\
         date: \"2012-07-27 12:00\"\n\
         status: \"published\"\n\
         tags:\n\
         - \"TDD\"\n\
         - \"Testing\"\n\
         title: \"With Proper TDD, You Get That\"\n\
         ---\n\
         \n\
         Dariusz Pasciak describes [how developing software without TDD is\n\
         like](http://blog.8thlight.com/dariusz-pasciak/2012/07/18/with-proper-tdd-you-get-that.html \"With Proper TDD, You Get That\")\n\
         and concludes:\n\
         \n\
         End.\n",
    );

    let res = adapt_pelican_frontmatter(&src);

    assert_eq!(res, expected);
}

#[test]
fn round_trip_no_special_fields() {
    let out = adapt_pelican_frontmatter("Title: Hello");
    assert_eq!(out, "---\ntitle: \"Hello\"\n---\n");
}

#[test]
fn tag_and_category_splitting() {
    let pelican = raw_from(&[("Tags", "TDD, Testing"), ("Category", "Allgemein, Test Driving")]);
    let normalized = FrontMatter::from_pelican(pelican);

    let expected = normalized_from(vec![
        ("tags", list(&["TDD", "Testing"])),
        ("categories", list(&["Allgemein", "Test Driving"])),
    ]);
    assert_eq!(normalized, expected);
}

#[test]
fn slug_always_removed() {
    let out = adapt_pelican_frontmatter(
        "Title: A\nSlug: anything-at-all\n\nbody",
    );
    assert!(!out.contains("slug"));
    assert!(!out.contains("anything-at-all"));

    let out = adapt_pelican_frontmatter("SLUG: x\nslug: y");
    assert!(!out.contains("slug:"));
}

#[test]
fn empty_input_gives_empty_frontmatter() {
    assert_eq!(adapt_pelican_frontmatter(""), "---\n---\n");
}

#[test]
fn no_blank_line_means_no_body() {
    let out = adapt_pelican_frontmatter("A: 1\nB: 2");
    assert_eq!(out, "---\na: \"1\"\nb: \"2\"\n---\n");
}

#[test]
fn render_is_deterministic_across_insertion_orders() {
    let one = normalized_from(vec![
        ("title", value("T")),
        ("author", value("A")),
        ("tags", list(&["x", "y"])),
    ]);
    let other = normalized_from(vec![
        ("tags", list(&["x", "y"])),
        ("title", value("T")),
        ("author", value("A")),
    ]);
    assert_eq!(one.write(), other.write());
    assert_eq!(one.write(), "---\nauthor: \"A\"\ntags:\n- \"x\"\n- \"y\"\ntitle: \"T\"\n---\n");
}

#[test]
fn normalize_is_idempotent_on_key_set() {
    let raw = raw_from(&[
        ("Title", "Hello"),
        ("Tags", "TDD, Testing"),
        ("Category", "Allgemein"),
        ("Slug", "gone"),
    ]);
    let normalized = FrontMatter::from_pelican(raw);

    // flatten the normalized fields back into raw input
    let mut again = pelican::FrontMatter::new();
    for (k, v) in &normalized.fields {
        let flat = match v {
            FrontMatterType::Value(s) => s.clone(),
            FrontMatterType::List(items) => items.join(", "),
        };
        again.insert(k.clone(), flat);
    }
    let renormalized = FrontMatter::from_pelican(again);

    let keys: Vec<&String> = normalized.fields.iter().map(|e| &e.0).collect();
    let keys_again: Vec<&String> = renormalized.fields.iter().map(|e| &e.0).collect();
    assert_eq!(keys, keys_again);

    // scalar fields other than the list-valued ones keep their values
    assert!(renormalized.fields.iter().any(|e| e.0 == "title" && e.1 == value("Hello")));
    // and the tags survive the round trip as the same list
    assert!(renormalized.fields.iter().any(|e| e.0 == "tags" && e.1 == list(&["TDD", "Testing"])));
}

#[test]
fn later_duplicate_key_overwrites_earlier() {
    let lines: Vec<String> = vec!["Key: first".to_string(), "Key: second".to_string()];
    let fm = parse_front_matter(lines.as_slice()).unwrap();
    assert_eq!(fm, raw_from(&[("Key", "second")]));
}

#[test]
fn line_without_colon_gets_empty_value() {
    let lines: Vec<String> = vec!["no colon here".to_string()];
    let fm = parse_front_matter(lines.as_slice()).unwrap();
    assert_eq!(fm, raw_from(&[("no colon here", "")]));
}

#[test]
fn value_is_trimmed_key_is_not() {
    let lines: Vec<String> = vec![" Key :   padded value \t".to_string()];
    let fm = parse_front_matter(lines.as_slice()).unwrap();
    assert_eq!(fm, raw_from(&[(" Key ", "padded value")]));
}

#[test]
fn empty_list_renders_with_blank_line() {
    let fm = normalized_from(vec![("tags", FrontMatterType::List(vec![]))]);
    assert_eq!(fm.write(), "---\ntags:\n\n---\n");
}

#[test]
fn apf_error_messages() {
    let e = ApfError::FailedToRead { arg: "eof".to_string() };
    assert_eq!(e.message(), "Failed to read because eof");
    let e = ApfError::FailedToOpenSourceFile { arg: "missing".to_string() };
    assert_eq!(e.message(), "Could not open source file because missing");
}

#[test]
fn end_to_end_scenario() {
    let src = "Title: With Proper TDD, You Get That\n\
               Date: 2012-07-27 12:00\n\
               Author: lukas\n\
               Category: Allgemein, Test Driving\n\
               Tags: TDD, Testing\n\
               Slug: with-proper-tdd-you-get-that\n\
               Status: published\n\
               \n\
               Body line one.\n";
    let expected = "---\n\
                    author: \"lukas\"\n\
                    categories:\n\
                    - \"Allgemein\"\n\
                    - \"Test Driving\"\n\
                    date: \"2012-07-27 12:00\"\n\
                    status: \"published\"\n\
                    tags:\n\
                    - \"TDD\"\n\
                    - \"Testing\"\n\
                    title: \"With Proper TDD, You Get That\"\n\
                    ---\n\
                    \n\
                    Body line one.\n";
    assert_eq!(adapt_pelican_frontmatter(src), expected);
}
