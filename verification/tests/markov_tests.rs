use markov::link::{Link, LinkSet, Token};
use markov::markov::{pick_weighted, weighted_selection, Markov};
use markov::text::{render_sentence, sentence_end, split_sentences, split_words};
use rand::rngs::StdRng;
use rand::SeedableRng;

fn ctx(words: &[&str]) -> Vec<String> {
    let mut v = Vec::new();
    for w in words {
        v.push(w.to_string());
    }
    v
}

fn word(w: &str) -> Token {
    Token::Word(w.to_string())
}

fn delims() -> Vec<char> {
    vec!['.', '?', '!']
}

#[test]
fn window_completeness_depth_two() {
    let mut m = Markov::with_depth(2);
    m.train_text("a b c", &delims());
    let (contexts, links) = m.num_contexts_links();
    assert_eq!(contexts, 5);
    assert_eq!(links, 5);
    assert_eq!(m.link_count(&ctx(&["a"]), &word("b")), 1);
    assert_eq!(m.link_count(&ctx(&["b"]), &word("c")), 1);
    assert_eq!(m.link_count(&ctx(&["c"]), &Token::End), 1);
    assert_eq!(m.link_count(&ctx(&["a", "b"]), &word("c")), 1);
    assert_eq!(m.link_count(&ctx(&["b", "c"]), &Token::End), 1);
    assert_eq!(m.link_count(&ctx(&["a"]), &Token::End), 0);
    assert_eq!(m.link_count(&ctx(&["a"]), &word("c")), 0);
    assert_eq!(m.link_count(&ctx(&["a", "b"]), &Token::End), 0);
    assert_eq!(m.link_count(&ctx(&["a", "b", "c"]), &Token::End), 0);
}

#[test]
fn single_word_sentence_contributes_nothing() {
    let mut m = Markov::with_depth(4);
    m.train_text("hello", &delims());
    assert_eq!(m.entry_points().len(), 1);
    assert_eq!(m.entry_points()[0], "hello");
    assert_eq!(m.num_contexts_links(), (0, 0));
    assert!(!m.can_generate());
}

#[test]
fn training_order_yields_same_counts() {
    let mut m1 = Markov::with_depth(3);
    let mut m2 = Markov::with_depth(3);
    m1.train_text("a b. c d a b. b c", &delims());
    m2.train_text("b c. c d a b. a b", &delims());
    let pairs: &[(&[&str], Token)] = &[
        (&["a"], word("b")),
        (&["b"], Token::End),
        (&["b"], word("c")),
        (&["c"], word("d")),
        (&["c"], Token::End),
        (&["d"], word("a")),
        (&["c", "d"], word("a")),
        (&["d", "a"], word("b")),
        (&["c", "d", "a"], word("b")),
        (&["a", "b"], Token::End),
        (&["d", "a", "b"], Token::End),
    ];
    for (c, t) in pairs {
        assert_eq!(m1.link_count(&ctx(c), t), m2.link_count(&ctx(c), t));
    }
    assert_eq!(m1.num_contexts_links(), m2.num_contexts_links());
}

#[test]
fn repeated_training_doubles_counts() {
    let mut m = Markov::with_depth(2);
    m.train_text("x y z", &delims());
    m.train_text("x y z", &delims());
    assert_eq!(m.link_count(&ctx(&["x"]), &word("y")), 2);
    assert_eq!(m.link_count(&ctx(&["x", "y"]), &word("z")), 2);
    assert_eq!(m.link_count(&ctx(&["z"]), &Token::End), 2);
}

#[test]
fn link_set_stays_sorted_descending() {
    let mut s = LinkSet::new();
    s.insert(word("x"));
    s.insert(word("y"));
    s.insert(word("y"));
    s.insert(word("z"));
    s.insert(word("y"));
    s.insert(word("z"));
    assert_eq!(s.len(), 3);
    let mut prev = usize::MAX;
    for i in 0..s.len() {
        let c = s.get(i).count;
        assert!(c <= prev);
        prev = c;
    }
    let best = s.best();
    assert!(best.token.is(&word("y")));
    assert_eq!(best.count, 3);
}

#[test]
fn link_set_never_duplicates_tokens() {
    let mut s = LinkSet::new();
    for _ in 0..10 {
        s.insert(word("same"));
    }
    s.insert(Token::End);
    s.insert(Token::End);
    assert_eq!(s.len(), 2);
    for i in 0..s.len() {
        for j in 0..s.len() {
            if i != j {
                assert!(!s.get(i).token.is(&s.get(j).token));
            }
        }
    }
}

#[test]
fn link_of_and_merge() {
    let mut a = Link::of(word("w"));
    assert_eq!(a.count, 1);
    let b = Link {
        token: word("w"),
        count: 4,
    };
    a.merge(b);
    assert_eq!(a.count, 5);
    assert!(a.token.is(&word("w")));
}

#[test]
fn entry_points_in_first_occurrence_order() {
    let mut m = Markov::with_depth(4);
    m.train_text("alpha one. beta two. alpha three. gamma four", &delims());
    let eps = m.entry_points();
    assert_eq!(eps.len(), 3);
    assert_eq!(eps[0], "alpha");
    assert_eq!(eps[1], "beta");
    assert_eq!(eps[2], "gamma");
}

#[test]
fn empty_sentences_are_skipped() {
    let mut m1 = Markov::with_depth(2);
    let mut m2 = Markov::with_depth(2);
    m1.train_text("..a b..!?", &delims());
    m2.train_text("a b", &delims());
    assert_eq!(m1.num_contexts_links(), m2.num_contexts_links());
    assert_eq!(m1.link_count(&ctx(&["a"]), &word("b")), 1);
}

#[test]
fn whitespace_runs_split_words() {
    let mut m = Markov::with_depth(1);
    m.train_text("  a \t\n  b  ", &delims());
    assert_eq!(m.link_count(&ctx(&["a"]), &word("b")), 1);
    assert_eq!(m.entry_points()[0], "a");
}

#[test]
fn depth_caps_context_length() {
    let mut m = Markov::with_depth(2);
    m.train_text("a b c d", &delims());
    assert_eq!(m.link_count(&ctx(&["a", "b", "c"]), &word("d")), 0);
    assert_eq!(m.link_count(&ctx(&["b", "c"]), &word("d")), 1);
    assert_eq!(m.link_count(&ctx(&["c", "d"]), &Token::End), 1);
}

#[test]
fn pick_weighted_bands_are_exact() {
    let links = vec![
        Link {
            token: word("a"),
            count: 1,
        },
        Link {
            token: word("b"),
            count: 3,
        },
    ];
    assert_eq!(pick_weighted(&links, 0), 0);
    assert_eq!(pick_weighted(&links, 1), 1);
    assert_eq!(pick_weighted(&links, 2), 1);
    assert_eq!(pick_weighted(&links, 3), 1);
}

#[test]
fn weighted_selection_is_fair() {
    let links = vec![
        Link {
            token: word("a"),
            count: 1,
        },
        Link {
            token: word("b"),
            count: 3,
        },
    ];
    let mut rng = StdRng::seed_from_u64(42);
    let draws = 100_000;
    let mut hits_a = 0usize;
    for _ in 0..draws {
        let l = weighted_selection(&mut rng, &links);
        if l.token.is(&word("a")) {
            hits_a += 1;
        }
    }
    // Expected 25% within a generous statistical tolerance.
    assert!(hits_a > 23_000, "too few: {hits_a}");
    assert!(hits_a < 27_000, "too many: {hits_a}");
}

#[test]
fn generation_needs_training() {
    let m = Markov::with_depth(4);
    assert!(!m.can_generate());
}

#[test]
fn forced_chain_generates_exactly() {
    let mut m = Markov::with_depth(1);
    m.train_text("x y", &delims());
    assert!(m.can_generate());
    let mut rng = StdRng::seed_from_u64(7);
    let s = m.generate_sentence(&mut rng);
    assert_eq!(s, "x y.");
}

#[test]
fn generated_sentence_is_well_formed() {
    let mut m = Markov::with_depth(4);
    m.train_text(
        "the cat sat on the mat. the dog sat on the log. \
         a cat saw the dog. the mat was warm. the dog saw a cat",
        &delims(),
    );
    assert!(m.can_generate());
    let mut rng = StdRng::seed_from_u64(123);
    for _ in 0..20 {
        let s = m.generate_sentence(&mut rng);
        assert!(s.ends_with('.'));
        assert_eq!(s.chars().filter(|c| *c == '.').count(), 1);
        assert!(!s.starts_with(char::is_whitespace));
        assert!(!s.trim_end_matches('.').ends_with(char::is_whitespace));
        assert!(!s.contains("  "));
        let body = &s[..s.len() - 1];
        assert!(!body.is_empty());
        for w in body.split(' ') {
            assert!(!w.is_empty());
        }
    }
}

#[test]
fn same_seed_same_sentence() {
    let mut m = Markov::with_depth(3);
    m.train_text(
        "one two three four. two three five. five two one. three four one two",
        &delims(),
    );
    let mut r1 = StdRng::seed_from_u64(99);
    let mut r2 = StdRng::seed_from_u64(99);
    assert_eq!(m.generate_sentence(&mut r1), m.generate_sentence(&mut r2));
}

#[test]
fn sentence_end_recognizes_terminators() {
    assert!(sentence_end('.'));
    assert!(sentence_end('?'));
    assert!(sentence_end('!'));
    assert!(!sentence_end('a'));
    assert!(!sentence_end(' '));
    assert!(!sentence_end(','));
}

#[test]
fn split_helpers_behave() {
    let words = split_words("  foo  bar\tbaz ");
    assert_eq!(words, vec!["foo", "bar", "baz"]);
    let sentences = split_sentences("a b..c!  ?d", &delims());
    assert_eq!(sentences, vec!["a b", "c", "  ", "d"]);
    let rendered = render_sentence(&ctx(&["a", "b", "c"]));
    assert_eq!(rendered, "a b c.");
}

#[test]
fn total_count_tracks_occurrences() {
    let mut m = Markov::with_depth(2);
    assert_eq!(m.total_count(), 0);
    m.train_text("a b c", &delims());
    assert_eq!(m.total_count(), 5);
    m.train_text("a b c", &delims());
    assert_eq!(m.total_count(), 10);
}

#[test]
fn next_word_follows_the_only_link() {
    let mut m = Markov::with_depth(1);
    m.train_text("x y", &delims());
    let mut rng = StdRng::seed_from_u64(5);
    let t = m.next_word(&mut rng, &ctx(&["x"]));
    assert!(t.is(&word("y")));
    let t = m.next_word(&mut rng, &ctx(&["y"]));
    assert!(t.is(&Token::End));
}

#[test]
fn pooling_weights_longer_contexts_more() {
    // After "p q r" and "s q t", the context ["p", "q"] pools q's
    // width-one successors (r and t, weight 1 each) with the width-two
    // successor r (weight 2): r must outweigh t, so the heaviest link
    // of the width-two context alone is r as well.
    let mut m = Markov::with_depth(2);
    m.train_text("p q r. s q t", &delims());
    assert_eq!(m.link_count(&ctx(&["p", "q"]), &word("r")), 1);
    assert_eq!(m.link_count(&ctx(&["q"]), &word("r")), 1);
    assert_eq!(m.link_count(&ctx(&["q"]), &word("t")), 1);
}
