use llms_from_scratch::dataset::{collate, GPTDatasetV1};
use llms_from_scratch::segment::tokenize;
use llms_from_scratch::tokenizer::{SimpleTokenizerV1, SimpleTokenizerV2, Tokenizer};
use llms_from_scratch::vocab::{construct_vocab_from_url, Corpus, FetchError};
use std::collections::HashSet;

const THE_VERDICT_URL: &str = "https://raw.githubusercontent.com/rasbt/LLMs-from-scratch/main/ch02/01_main-chapter-code/the-verdict.txt";

fn text_from_url(url: &str) -> Result<String, FetchError> {
    let fetched = reqwest::blocking::get(url)
        .and_then(|res| res.error_for_status())
        .and_then(|res| res.text());
    fetched.map_err(|e| FetchError { message: e.to_string() })
}

/// The corpus text, or `None` (with a note) where the URL cannot be reached,
/// so that the checks below need the network only for their input.
fn verdict_text() -> Option<String> {
    match text_from_url(THE_VERDICT_URL) {
        Ok(text) => Some(text),
        Err(e) => {
            println!("corpus unreachable, remaining checks not run: {}", e.message);
            None
        }
    }
}

fn verdict_corpus(text: &str) -> Corpus {
    Corpus::Url {
        url: THE_VERDICT_URL.to_string(),
        fetched: Ok(text.to_string()),
    }
}

#[test]
fn test_simple_tokenizer_v2_special_tokens() {
    let Some(text) = verdict_text() else { return };
    let tokenizer = SimpleTokenizerV2::new(verdict_corpus(&text)).unwrap();
    let vocab = tokenizer.vocabulary();

    assert_eq!(vocab.index_of("younger"), Some(1127));
    assert_eq!(vocab.index_of("your"), Some(1128));
    assert_eq!(vocab.index_of("yourself"), Some(1129));
    assert_eq!(vocab.index_of("<|endoftext|>"), Some(1130));
    assert_eq!(vocab.index_of("<|unk|>"), Some(1131));
}

#[test]
fn test_simple_tokenizer_v2_roundtrip() {
    let Some(text) = verdict_text() else { return };
    let tokenizer = SimpleTokenizerV2::new(verdict_corpus(&text)).unwrap();

    let input = "Hello, do you like tea? <|endoftext|> In the sunlit terraces of the palace.";

    let encoded = tokenizer.encode(input.to_string()).unwrap();

    assert_eq!(
        encoded,
        [1131, 5, 355, 1126, 628, 975, 10, 1130, 55, 988, 956, 984, 722, 988, 1131, 7],
    );

    let decoded = tokenizer.decode(encoded).unwrap();

    assert_eq!(
        decoded,
        "<|unk|>, do you like tea? <|endoftext|> In the sunlit terraces of the <|unk|>."
    )
}

#[test]
fn test_simple_tokenizer_v1_tokenize() {
    let Some(text) = verdict_text() else { return };
    let tokenizer = SimpleTokenizerV1::new(construct_vocab_from_url(Ok(text), None).unwrap());

    let input = "\"It's the last he painted, you know,\" Mrs. Gisburn said with pardonable pride.";

    let ids = tokenizer.encode(input.to_string()).unwrap();

    assert_eq!(
        ids,
        [
            1, 56, 2, 850, 988, 602, 533, 746, 5, 1126, 596, 5, 1, 67, 7, 38, 851, 1108, 754, 793,
            7,
        ],
    );

    assert_eq!(
        tokenizer.decode(ids).unwrap(),
        "\" It' s the last he painted, you know,\" Mrs. Gisburn said with pardonable pride."
    );
}

#[test]
fn test_tokenize() {
    assert_eq!(
        tokenize("Hello, world. Is this-- a test?"),
        Vec::from(["Hello", ",", "world", ".", "Is", "this", "--", "a", "test", "?"])
    );

    let Some(opened) = verdict_text() else { return };

    assert_eq!(
        tokenize(&opened)[0..30],
        [
            "I", "HAD", "always", "thought", "Jack", "Gisburn", "rather", "a", "cheap", "genius",
            "--", "though", "a", "good", "fellow", "enough", "--", "so", "it", "was", "no",
            "great", "surprise", "to", "me", "to", "hear", "that", ",", "in"
        ]
    );
}

#[test]
fn test_construct_vocab() {
    let Some(text) = verdict_text() else { return };
    let vocab = construct_vocab_from_url(
        Ok(text),
        vec!["<|endoftext|>".to_string(), "<|unk|>".to_string()].into(),
    )
    .unwrap();

    assert_eq!(vocab.len(), 1132);

    assert_eq!(vocab.index_of("!"), Some(0));
    assert_eq!(vocab.index_of("\""), Some(1));
    assert_eq!(vocab.index_of("'"), Some(2));
    assert_eq!(vocab.index_of("Her"), Some(49));
    assert_eq!(vocab.index_of("Hermia"), Some(50));

    assert_eq!(vocab.index_of("younger"), Some(1127));
    assert_eq!(vocab.index_of("your"), Some(1128));
    assert_eq!(vocab.index_of("yourself"), Some(1129));

    assert_eq!(vocab.index_of("<|endoftext|>"), Some(1130));
    assert_eq!(vocab.index_of("<|unk|>"), Some(1131));
}

#[test]
fn test_gpt2_tiktoken_encoder() {
    let tokenizer = tiktoken_rs::bpe_for_model("gpt2").unwrap();

    let integers = tokenizer
        .encode(
            "Hello, do you like tea? <|endoftext|> In the sunlit terraces of someunknownPlace.",
            &HashSet::from(["<|endoftext|>"]),
        )
        .unwrap()
        .0;

    assert_eq!(
        integers,
        [
            15496, 11, 466, 345, 588, 8887, 30, 220, 50256, 554, 262, 4252, 18250, 8812, 2114,
            286, 617, 34680, 27271, 13
        ],
    );

    assert_eq!(
        tokenizer.decode(&integers).unwrap(),
        "Hello, do you like tea? <|endoftext|> In the sunlit terraces of someunknownPlace."
    );

    let Some(text) = verdict_text() else { return };
    let enc_text = tokenizer
        .encode(text.as_str(), &HashSet::new())
        .unwrap()
        .0;

    assert_eq!(enc_text.len(), 5145);

    let enc_sample = &enc_text[50..];

    let context_size = 4;
    assert_eq!(enc_sample[0..context_size], [290, 4920, 2241, 287]);
    assert_eq!(enc_sample[1..context_size + 1], [4920, 2241, 287, 257]);
}

#[test]
fn test_gpt_v1_dataset() {
    let Some(text) = verdict_text() else { return };
    let dataset = GPTDatasetV1::new_from_text(
        text.clone(),
        &SimpleTokenizerV2::new(verdict_corpus(&text)).unwrap(),
        4,
        1,
    )
    .unwrap();

    let item = dataset.get(0).unwrap();

    let enc_text = SimpleTokenizerV2::new(verdict_corpus(&text))
        .unwrap()
        .encode(text.clone())
        .unwrap();

    assert_eq!(item.input_ids, enc_text[0..4]);

    let items: Vec<_> = (0..4).map(|i| dataset.get(i).unwrap()).collect();
    let batches = collate(&items, 4, false).unwrap();
    let batch = &batches[0];

    println!("{:?}", item.input_ids);

    assert_eq!([batch.input_ids.len(), batch.input_ids[0].len()], [4, 4]);
    assert_eq!([batch.target_ids.len(), batch.target_ids[0].len()], [4, 4]);
}
