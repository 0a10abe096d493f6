use llms_from_scratch::bpe::UnsafeBPETokenizer;
use llms_from_scratch::dataset::{collate, generate, BatchError, GPTDatasetBatcher, GPTDatasetItem, GPTDatasetV1};
use llms_from_scratch::order::{precedes, sort_tokens};
use llms_from_scratch::segment::{chars_of, tokenize};
use llms_from_scratch::spacing::tighten_spacing;
use llms_from_scratch::tokenizer::{SimpleTokenizerV1, SimpleTokenizerV2, Tokenizer, TokenizerError};
use llms_from_scratch::vocab::{construct_vocab, construct_vocab_from_url, uniq, Corpus, FetchError};
use llms_from_scratch::{Listing, ListingError, ListingOutcome, E2_1, L2_1};

fn strings(v: &[&str]) -> Vec<String> {
    v.iter().map(|s| s.to_string()).collect()
}

#[test]
fn segment_concrete_example() {
    assert_eq!(
        tokenize("Hello, world. Is this-- a test?"),
        vec!["Hello", ",", "world", ".", "Is", "this", "--", "a", "test", "?"]
    );
}

#[test]
fn segment_same_input_same_output() {
    let text = "It's (almost) done; isn't it? \"Yes\": _all_ of it!";
    assert_eq!(tokenize(text), tokenize(text));
    assert_eq!(
        tokenize(text),
        vec![
            "It", "'", "s", "(", "almost", ")", "done", ";", "isn", "'", "t", "it", "?", "\"",
            "Yes", "\"", ":", "_", "all", "_", "of", "it", "!"
        ]
    );
}

#[test]
fn segment_empty_and_blank() {
    assert!(tokenize("").is_empty());
    assert!(tokenize(" \t\n\u{a0}\u{3000} ").is_empty());
}

#[test]
fn segment_whitespace_separates() {
    assert_eq!(tokenize("  one\ttwo\n\nthree  "), vec!["one", "two", "three"]);
    assert_eq!(tokenize("a\u{2003}b"), vec!["a", "b"]);
}

#[test]
fn segment_dashes() {
    assert_eq!(tokenize("x---y"), vec!["x", "--", "-y"]);
    assert_eq!(tokenize("well-known"), vec!["well-known"]);
    assert_eq!(tokenize("----"), vec!["--", "--"]);
}

#[test]
fn segment_non_ascii_words() {
    assert_eq!(tokenize("café, naïve."), vec!["café", ",", "naïve", "."]);
}

#[test]
fn chars_of_keeps_order() {
    assert_eq!(chars_of("aé b"), vec!['a', 'é', ' ', 'b']);
}

#[test]
fn precedes_orders_by_code_point() {
    assert!(precedes("Her", "Hermia"));
    assert!(!precedes("Hermia", "Her"));
    assert!(precedes("Z", "a"));
    assert!(precedes("!", "\""));
    assert!(!precedes("same", "same"));
    assert!(precedes("", "a"));
}

#[test]
fn sort_tokens_sorts_and_dedups() {
    let sorted = sort_tokens(strings(&["pear", "apple", "Pear", "apple", "fig"]));
    assert_eq!(sorted, strings(&["Pear", "apple", "fig", "pear"]));
}

#[test]
fn uniq_keeps_each_once() {
    let mut out = uniq(vec!["b", "a", "b", "c", "a"]);
    out.sort();
    assert_eq!(out, strings(&["a", "b", "c"]));
    assert!(uniq(vec![]).is_empty());
}

#[test]
fn vocabulary_sorted_then_additional() {
    let vocab = construct_vocab("b a b c", Some(strings(&["<|endoftext|>", "<|unk|>"])));
    assert_eq!(vocab.len(), 5);
    assert_eq!(vocab.index_of("a"), Some(0));
    assert_eq!(vocab.index_of("b"), Some(1));
    assert_eq!(vocab.index_of("c"), Some(2));
    assert_eq!(vocab.index_of("<|endoftext|>"), Some(3));
    assert_eq!(vocab.index_of("<|unk|>"), Some(4));
    assert_eq!(vocab.index_of("d"), None);
}

#[test]
fn vocabulary_index_and_token_undo_each_other() {
    let vocab = construct_vocab("the cat sat on the mat.", Some(strings(&["<|unk|>"])));
    for i in 0..vocab.len() {
        let token = vocab.token_of(i).unwrap();
        assert_eq!(vocab.index_of(token), Some(i));
    }
    assert_eq!(vocab.token_of(vocab.len()), None);
}

#[test]
fn vocabulary_building_is_deterministic() {
    let corpus = "One fish, two fish; red fish, blue fish.";
    let a = construct_vocab(corpus, Some(strings(&["<|unk|>"])));
    let b = construct_vocab(corpus, Some(strings(&["<|unk|>"])));
    assert_eq!(a.len(), b.len());
    for i in 0..a.len() {
        assert_eq!(a.token_of(i), b.token_of(i));
    }
}

#[test]
fn vocabulary_empty_corpus_holds_only_additional() {
    let vocab = construct_vocab("   ", Some(strings(&["<|unk|>"])));
    assert_eq!(vocab.len(), 1);
    assert_eq!(vocab.index_of("<|unk|>"), Some(0));
    assert_eq!(construct_vocab("", None).len(), 0);
}

#[test]
fn vocabulary_duplicate_additional_token_takes_over() {
    let vocab = construct_vocab("a b", Some(strings(&["a"])));
    assert_eq!(vocab.len(), 3);
    assert_eq!(vocab.index_of("a"), Some(2));
    assert_eq!(vocab.token_of(0), None);
    assert_eq!(vocab.token_of(2), Some("a"));
}

#[test]
fn vocabulary_from_fetched_text() {
    let vocab = construct_vocab_from_url(Ok("x y x".to_string()), None).unwrap();
    assert_eq!(vocab.len(), 2);
    let failed = construct_vocab_from_url(Err(FetchError { message: "offline".to_string() }), None);
    assert_eq!(failed.err().unwrap().message, "offline");
}

#[test]
fn corpus_to_vocab() {
    let raw = Corpus::Raw("z y".to_string()).to_vocab(None).unwrap();
    assert_eq!(raw.index_of("y"), Some(0));
    let url = Corpus::Url {
        url: "http://example.invalid/corpus.txt".to_string(),
        fetched: Ok("q".to_string()),
    };
    assert_eq!(url.to_vocab(None).unwrap().index_of("q"), Some(0));
    let down = Corpus::Url {
        url: "http://example.invalid/corpus.txt".to_string(),
        fetched: Err(FetchError { message: "404".to_string() }),
    };
    assert_eq!(down.to_vocab(None).err().unwrap().message, "404");
}

#[test]
fn permissive_encoding_falls_back_to_unknown() {
    let tokenizer = SimpleTokenizerV2::new(Corpus::Raw("the cat sat".to_string())).unwrap();
    // cat 0, sat 1, the 2, <|endoftext|> 3, <|unk|> 4
    assert_eq!(tokenizer.encode("the dog sat".to_string()), Ok(vec![2, 4, 1]));
    assert_eq!(tokenizer.encode("".to_string()), Ok(vec![]));
}

#[test]
fn strict_encoding_fails_on_unknown_token() {
    let tokenizer = SimpleTokenizerV1::new(construct_vocab("the cat sat", None));
    assert_eq!(tokenizer.encode("the dog sat".to_string()), Err(TokenizerError::UnknownToken));
    assert_eq!(tokenizer.encode("sat the cat".to_string()), Ok(vec![1, 2, 0]));
}

#[test]
fn decode_rejects_unknown_id() {
    let tokenizer = SimpleTokenizerV1::new(construct_vocab("the cat sat", None));
    assert_eq!(tokenizer.decode(vec![0, 3]), Err(TokenizerError::UnknownId));
    let permissive = SimpleTokenizerV2::new(Corpus::Raw("a".to_string())).unwrap();
    assert_eq!(permissive.decode(vec![99]), Err(TokenizerError::UnknownId));
}

#[test]
fn round_trip_on_closed_vocabulary() {
    let text = "Hello, world. Is this-- a test?";
    let tokenizer = SimpleTokenizerV1::new(construct_vocab(text, None));
    let ids = tokenizer.encode(text.to_string()).unwrap();
    assert_eq!(tokenizer.decode(ids).unwrap(), "Hello, world. Is this -- a test?");

    let permissive = SimpleTokenizerV2::new(Corpus::Raw(text.to_string())).unwrap();
    let ids = permissive.encode("a test, world!".to_string()).unwrap();
    assert_eq!(permissive.decode(ids).unwrap(), "a test, world <|unk|>");
}

#[test]
fn tighten_spacing_before_closing_marks() {
    assert_eq!(tighten_spacing("a  , b . c ? d ! \" ( ) '"), "a, b. c? d!\"()'");
    assert_eq!(tighten_spacing("keep : ; _ -- spaces"), "keep : ; _ -- spaces");
    assert_eq!(tighten_spacing(" \t."), ".");
    assert_eq!(tighten_spacing("trailing  "), "trailing  ");
}

#[test]
fn windows_shift_by_one() {
    let ids: Vec<usize> = (10..20).collect();
    let items = generate(&ids, 4, 1);
    assert_eq!(items.len(), 6);
    for (k, item) in items.iter().enumerate() {
        assert_eq!(item.input_ids, ids[k..k + 4]);
        assert_eq!(item.target_ids, ids[k + 1..k + 5]);
        assert_eq!(item.target_ids[..3], item.input_ids[1..]);
    }
}

#[test]
fn windows_count_with_stride() {
    let ids: Vec<usize> = (0..10).collect();
    let items = generate(&ids, 4, 2);
    assert_eq!(items.len(), (10 - 4 - 1) / 2 + 1);
    assert_eq!(items[2].input_ids, vec![4, 5, 6, 7]);
    assert_eq!(items[2].target_ids, vec![5, 6, 7, 8]);
    assert_eq!(generate(&ids, 3, 20).len(), 1);
}

#[test]
fn windows_empty_when_stream_too_short() {
    assert!(generate(&vec![1, 2, 3, 4], 4, 1).is_empty());
    assert!(generate(&vec![], 1, 1).is_empty());
    assert_eq!(generate(&vec![1, 2, 3, 4, 5], 4, 1).len(), 1);
}

#[test]
fn dataset_from_text() {
    let tokenizer = SimpleTokenizerV1::new(construct_vocab("a b c d e f", None));
    let dataset = GPTDatasetV1::new_from_text("a b c d e f".to_string(), &tokenizer, 2, 2).unwrap();
    assert_eq!(dataset.len(), 2);
    let first = dataset.get(0).unwrap();
    assert_eq!(first.input_ids, vec![0, 1]);
    assert_eq!(first.target_ids, vec![1, 2]);
    assert!(dataset.get(2).is_none());
    let failed = GPTDatasetV1::new_from_text("a z".to_string(), &tokenizer, 2, 2);
    assert_eq!(failed.err(), Some(TokenizerError::UnknownToken));
}

#[test]
fn collate_batches_have_shape() {
    let ids: Vec<usize> = (0..10).collect();
    let items = generate(&ids, 4, 1);
    let kept = collate(&items, 4, false).unwrap();
    assert_eq!(kept.len(), 2);
    assert_eq!(kept[0].input_ids.len(), 4);
    assert_eq!(kept[0].target_ids.len(), 4);
    assert!(kept[0].input_ids.iter().all(|row| row.len() == 4));
    assert!(kept[0].target_ids.iter().all(|row| row.len() == 4));
    assert_eq!(kept[1].input_ids.len(), 2);
    assert_eq!(kept[1].input_ids[1], vec![5, 6, 7, 8]);
    assert_eq!(kept[1].target_ids[1], vec![6, 7, 8, 9]);
    let dropped = collate(&items, 4, true).unwrap();
    assert_eq!(dropped.len(), 1);
    assert_eq!(dropped[0].input_ids[3], vec![3, 4, 5, 6]);
    assert!(collate(&vec![], 3, false).unwrap().is_empty());
}

#[test]
fn collate_rejects_inconsistent_shape() {
    let items = vec![
        GPTDatasetItem { input_ids: vec![1, 2], target_ids: vec![2, 3] },
        GPTDatasetItem { input_ids: vec![1, 2, 3], target_ids: vec![2, 3, 4] },
    ];
    assert_eq!(collate(&items, 2, false).err(), Some(BatchError::InconsistentShape));
    assert_eq!(collate(&items, 1, false).unwrap().len(), 2);
}

#[test]
fn batcher_stacks_rows() {
    let items = vec![
        GPTDatasetItem { input_ids: vec![1, 2], target_ids: vec![2, 3] },
        GPTDatasetItem { input_ids: vec![4, 5], target_ids: vec![5, 6] },
    ];
    let batch = GPTDatasetBatcher {}.batch(items).unwrap();
    assert_eq!(batch.input_ids, vec![vec![1, 2], vec![4, 5]]);
    assert_eq!(batch.target_ids, vec![vec![2, 3], vec![5, 6]]);
    let ragged = vec![GPTDatasetItem { input_ids: vec![1, 2], target_ids: vec![2] }];
    assert_eq!(GPTDatasetBatcher {}.batch(ragged).err(), Some(BatchError::InconsistentShape));
}

#[test]
fn bpe_tokenizer_encodes_and_decodes() {
    let tokenizer = UnsafeBPETokenizer::new("gpt2").unwrap();
    let ids = tokenizer.encode("Hello, do you like tea?".to_string()).unwrap();
    assert_eq!(ids, vec![15496, 11, 466, 345, 588, 8887, 30]);
    assert_eq!(tokenizer.decode(ids).unwrap(), "Hello, do you like tea?");
    assert_eq!(tokenizer.decode(vec![u32::MAX as usize + 1]), Err(TokenizerError::UnknownId));
    assert_eq!(tokenizer.decode(vec![4_000_000]), Err(TokenizerError::Rejected));
    assert!(UnsafeBPETokenizer::new("no-such-model").is_none());
}

#[test]
fn listing_reports_vocabulary_size() {
    match L2_1.main("b a b, c") {
        Ok(ListingOutcome::VocabularySize(n)) => assert_eq!(n, 4),
        _ => panic!("expected a vocabulary size"),
    }
}

#[test]
fn listing_round_trips_bpe() {
    match E2_1.main("") {
        Ok(ListingOutcome::RoundTrip { input, decoded }) => {
            assert_eq!(input, "Akwirw ier");
            assert_eq!(decoded, "Akwirw ier");
        }
        _ => panic!("expected a round trip"),
    }
    assert_ne!(ListingError::UnknownModel, ListingError::Tokenizer(TokenizerError::Rejected));
}
