use faur::index::{Index, PackageRecord};
use faur::query::{intersections, Mode};
use faur::text::{split_commas, tokenize};

fn rec(name: &str, provides: &[&str], description: Option<&str>) -> PackageRecord {
    PackageRecord {
        name: name.to_string(),
        description: description.map(|d| d.to_string()),
        provides: provides.iter().map(|p| p.to_string()).collect(),
    }
}

fn terms(ts: &[&str]) -> Vec<String> {
    ts.iter().map(|t| t.to_string()).collect()
}

fn sorted(mut v: Vec<usize>) -> Vec<usize> {
    v.sort();
    v
}

fn sorted_words(name: &str, description: Option<&str>) -> Vec<String> {
    let mut ws = tokenize(&name.to_string(), &description.map(|d| d.to_string()));
    ws.sort();
    ws.dedup();
    ws
}

#[test]
fn provides_and_exact_name() {
    let db = vec![
        rec("foo", &[], Some("a great tool")),
        rec("bar", &["foo"], Some("alt implementation")),
    ];
    let ix = Index::new(&db);
    assert_eq!(ix.search(&terms(&["foo"]), Mode::Provides), vec![0, 1]);
    assert_eq!(ix.search(&terms(&["foo"]), Mode::Name), vec![0]);
    assert_eq!(ix.search(&terms(&["bar"]), Mode::Provides), Vec::<usize>::new());
}

#[test]
fn description_words_and_name_pieces() {
    let db = vec![rec("pkg-two", &[], Some("Does something (great) for everyone."))];
    let ix = Index::new(&db);
    assert_eq!(ix.search(&terms(&["great"]), Mode::Description), vec![0]);
    assert_eq!(ix.search(&terms(&["for"]), Mode::Description), Vec::<usize>::new());
    assert_eq!(ix.search(&terms(&["pkg", "two"]), Mode::Description), vec![0]);
    assert_eq!(ix.search(&terms(&["everyone"]), Mode::Description), vec![0]);
}

#[test]
fn description_intersection() {
    let db = vec![
        rec("a", &[], Some("alpha")),
        rec("b", &[], Some("alpha beta")),
        rec("c", &[], Some("beta")),
    ];
    let ix = Index::new(&db);
    assert_eq!(sorted(ix.search(&terms(&["alpha"]), Mode::Description)), vec![0, 1]);
    assert_eq!(sorted(ix.search(&terms(&["beta"]), Mode::Description)), vec![1, 2]);
    assert_eq!(ix.search(&terms(&["alpha", "beta"]), Mode::Description), vec![1]);
}

#[test]
fn description_falls_back_to_names() {
    let db = vec![rec("zz-top", &[], Some("blues rock")), rec("other", &[], Some("blues"))];
    let ix = Index::new(&db);
    assert_eq!(ix.search(&terms(&["zz-top"]), Mode::Description), vec![0]);
    assert_eq!(ix.search(&terms(&["nothing", "other"]), Mode::Description), vec![1]);
    assert_eq!(ix.search(&terms(&["nothing"]), Mode::Description), Vec::<usize>::new());
}

#[test]
fn missing_term_empties_intersection() {
    let db = vec![rec("tool", &[], Some("alpha beta"))];
    let ix = Index::new(&db);
    assert_eq!(ix.search(&terms(&["alpha", "gamma"]), Mode::Description), Vec::<usize>::new());
}

#[test]
fn adding_terms_narrows() {
    let db = vec![
        rec("one", &[], Some("fast small editor")),
        rec("two", &[], Some("fast editor")),
        rec("three", &[], Some("small editor")),
    ];
    let ix = Index::new(&db);
    let wide = sorted(ix.search(&terms(&["editor"]), Mode::Description));
    let mid = sorted(ix.search(&terms(&["editor", "fast"]), Mode::Description));
    let narrow = sorted(ix.search(&terms(&["editor", "fast", "small"]), Mode::Description));
    assert_eq!(wide, vec![0, 1, 2]);
    assert_eq!(mid, vec![0, 1]);
    assert_eq!(narrow, vec![0]);
    assert!(mid.iter().all(|x| wide.contains(x)));
    assert!(narrow.iter().all(|x| mid.contains(x)));
}

#[test]
fn explicit_provides_replace_own_name() {
    let db = vec![
        rec("vim-git", &["vim", "gvim"], Some("editor")),
        rec("neovim", &["neovim", "vim"], None),
        rec("vim", &[], None),
    ];
    let ix = Index::new(&db);
    assert_eq!(ix.search(&terms(&["vim"]), Mode::Provides), vec![0, 1, 2]);
    assert_eq!(ix.search(&terms(&["gvim"]), Mode::Provides), vec![0]);
    assert_eq!(ix.search(&terms(&["vim-git"]), Mode::Provides), Vec::<usize>::new());
    assert_eq!(ix.search(&terms(&["neovim"]), Mode::Provides), vec![1]);
}

#[test]
fn provides_uses_first_term_only() {
    let db = vec![rec("foo", &[], None), rec("bar", &[], None)];
    let ix = Index::new(&db);
    assert_eq!(ix.search(&terms(&["bar", "foo"]), Mode::Provides), vec![1]);
    assert_eq!(ix.search(&terms(&[]), Mode::Provides), Vec::<usize>::new());
}

#[test]
fn duplicate_provides_listed_twice() {
    let db = vec![rec("foo", &["x11", "x11"], None)];
    let ix = Index::new(&db);
    assert_eq!(ix.search(&terms(&["x11"]), Mode::Provides), vec![0, 0]);
}

#[test]
fn last_name_wins() {
    let db = vec![rec("dup", &[], Some("first")), rec("dup", &[], Some("second"))];
    let ix = Index::new(&db);
    assert_eq!(ix.search(&terms(&["dup"]), Mode::Name), vec![1]);
}

#[test]
fn exact_name_keeps_term_order() {
    let db = vec![rec("aaa", &[], None), rec("bbb", &[], None), rec("ccc", &[], None)];
    let ix = Index::new(&db);
    assert_eq!(ix.search(&terms(&["ccc", "zzz", "aaa", "ccc"]), Mode::Name), vec![2, 0, 2]);
}

#[test]
fn tokenizer_strips_and_filters() {
    let ws = sorted_words("foo-bar_baz", Some("The (Quick) brown fox's \"tail\"; ok. *bold* Linux's's"));
    assert_eq!(ws, terms(&["bar", "baz", "bold", "brown", "foo", "fox", "linux", "quick", "tail"]));
}

#[test]
fn tokenizer_lowercases() {
    let db = vec![rec("Shout", &[], Some("GREAT Tool"))];
    let ix = Index::new(&db);
    assert_eq!(ix.search(&terms(&["great"]), Mode::Description), vec![0]);
    assert_eq!(ix.search(&terms(&["tool"]), Mode::Description), vec![0]);
    assert_eq!(ix.search(&terms(&["shout"]), Mode::Description), vec![0]);
    assert_eq!(ix.search(&terms(&["GREAT"]), Mode::Description), Vec::<usize>::new());
}

#[test]
fn tokenizer_stop_words() {
    let ws = sorted_words("with-that", Some("for and the with from that your FOR The yours"));
    assert_eq!(ws, terms(&["yours"]));
}

#[test]
fn tokenizer_length_counts_bytes() {
    assert_eq!(sorted_words("ab", Some("xy éa ñ is")), terms(&["éa"]));
}

#[test]
fn tokenizer_no_description() {
    assert_eq!(sorted_words("hello-xy", None), terms(&["hello"]));
    assert_eq!(sorted_words("", None), Vec::<String>::new());
}

#[test]
fn tokenizer_whitespace_kinds() {
    assert_eq!(sorted_words("n", Some("one\ttwo\nthree\rfour\u{0C}five  six")), terms(&["five", "four", "one", "six", "three", "two"]));
}

#[test]
fn retokenizing_clean_words() {
    let ws = sorted_words("my-pkg", Some("A small \"terminal\" emulator's fork."));
    for w in &ws {
        assert_eq!(sorted_words("", Some(w)), vec![w.clone()]);
    }
}

#[test]
fn index_keys_are_long_and_not_stop_words() {
    let stops = ["for", "and", "the", "with", "from", "that", "your"];
    let ws = sorted_words("the-an-x", Some("and so it is with the best of them, your tool"));
    for w in &ws {
        assert!(w.len() > 2);
        assert!(!stops.contains(&w.as_str()));
    }
    assert_eq!(ws, terms(&["best", "them", "tool"]));
}

#[test]
fn intersections_of_sets() {
    let a = vec![1, 2, 3];
    let b = vec![2, 3, 4];
    let c = vec![3, 2];
    let mut r = intersections(&vec![&a, &b, &c]);
    r.sort();
    assert_eq!(r, vec![2, 3]);
    assert_eq!(intersections(&vec![&a]), vec![1, 2, 3]);
    assert_eq!(intersections(&Vec::new()), Vec::<usize>::new());
    let e: Vec<usize> = Vec::new();
    assert_eq!(intersections(&vec![&a, &e]), Vec::<usize>::new());
}

#[test]
fn word_listed_once_per_record() {
    let db = vec![rec("echo-echo", &[], Some("echo echo Echo"))];
    let ix = Index::new(&db);
    assert_eq!(ix.search(&terms(&["echo"]), Mode::Description), vec![0]);
}

#[test]
fn comma_separated_terms() {
    assert_eq!(split_commas("foo,bar"), terms(&["foo", "bar"]));
    assert_eq!(split_commas("foo"), terms(&["foo"]));
    assert_eq!(split_commas(""), terms(&[""]));
    assert_eq!(split_commas("a,,b,"), terms(&["a", "", "b", ""]));
}

#[test]
fn duplicate_names_listed_once_per_word() {
    let db = vec![
        rec("dup", &[], Some("shared first")),
        rec("dup", &[], Some("shared second")),
        rec("other", &[], Some("shared")),
    ];
    let ix = Index::new(&db);
    assert_eq!(sorted(ix.search(&terms(&["shared"]), Mode::Description)), vec![0, 2]);
    assert_eq!(ix.search(&terms(&["second"]), Mode::Description), vec![1]);
    assert_eq!(ix.search(&terms(&["dup"]), Mode::Description), vec![0]);
    assert_eq!(ix.search(&terms(&["dup"]), Mode::Name), vec![1]);
}

#[test]
fn fallback_returns_named_record_among_unmatched_terms() {
    let db = vec![rec("alpha", &[], Some("first tool")), rec("beta", &[], Some("second tool"))];
    let ix = Index::new(&db);
    assert_eq!(ix.search(&terms(&["zzz", "beta"]), Mode::Description), vec![1]);
    assert_eq!(ix.search(&terms(&["first", "beta"]), Mode::Description), vec![1]);
}
