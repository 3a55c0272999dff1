use punkt::params::Standard;
use punkt::sentence::sentences;
use punkt::token::Token;
use punkt::trainer::{
    is_potential_collocation, is_potential_sentence_starter, is_rare_abbrev_type, AbbrevEvidence,
    Collocation, CollocationEvidence, Judge, StarterEvidence,
};
use punkt::{Trainer, TrainingData};

struct Scores;

fn dunning_log_likelihood(count_a: f64, count_b: f64, count_ab: f64, n: f64) -> f64 {
    let p_null = count_b / n;
    let p_alt = 0.99f64;
    let nullh = count_ab * p_null.ln() + (count_a - count_ab) * (1.0 - p_null).ln();
    let alth = count_ab * p_alt.ln() + (count_a - count_ab) * (1.0 - p_alt).ln();
    -2.0 * (nullh - alth)
}

fn col_log_likelihood(count_a: f64, count_b: f64, count_ab: f64, n: f64) -> f64 {
    let p = count_b / n;
    let p_a = count_ab / count_a;
    let p_rest = (count_b - count_ab) / (n - count_a);
    let s1 = count_ab * p.ln() + (count_a - count_ab) * (1.0 - p).ln();
    let s2 = (count_b - count_ab) * p.ln() + (n - count_a - count_b + count_ab) * (1.0 - p).ln();
    let s3 = if count_a == count_ab {
        0f64
    } else {
        count_ab * p_a.ln() + (count_a - count_ab) * (1.0 - p_a).ln()
    };
    let s4 = if count_b == count_ab {
        0f64
    } else {
        (count_b - count_ab) * p_rest.ln()
            + (n - count_a - count_b + count_ab) * (1.0 - p_rest).ln()
    };
    -2.0 * (s1 + s2 - s3 - s4)
}

impl Judge for Scores {
    fn is_abbrev(&self, e: &AbbrevEvidence) -> bool {
        let likelihood = dunning_log_likelihood(
            e.count_with_period as f64 + e.count_without_period as f64,
            e.period_token_count as f64,
            e.count_with_period as f64,
            e.total as f64,
        );
        let f_length = (-(e.num_nonperiods as f64)).exp();
        let f_penalty = (e.num_nonperiods as f64).powi(-(e.count_without_period as i32));
        likelihood * f_length * f_penalty * (e.num_periods as f64) >= 0.3
    }

    fn is_sentence_starter(&self, e: &StarterEvidence) -> bool {
        let typ_count = e.count_with_period as f64 + e.count_without_period as f64;
        let likelihood = col_log_likelihood(
            e.sentence_break_count as f64,
            typ_count,
            e.starter_count as f64,
            e.total as f64,
        );
        let ratio = e.total as f64 / e.sentence_break_count as f64;
        likelihood >= 30.0 && ratio > typ_count / e.starter_count as f64
    }

    fn is_collocation(&self, e: &CollocationEvidence) -> bool {
        let left = e.left_without_period as f64 + e.left_with_period as f64;
        let right = e.right_without_period as f64 + e.right_with_period as f64;
        let likelihood = col_log_likelihood(left, right, e.count as f64, e.total as f64);
        likelihood >= 7.88 && (e.total as f64 / left) > (right / e.count as f64)
    }
}

struct Fixed {
    abbrev: bool,
    starter: bool,
    collocation: bool,
}

impl Judge for Fixed {
    fn is_abbrev(&self, _: &AbbrevEvidence) -> bool {
        self.abbrev
    }

    fn is_sentence_starter(&self, _: &StarterEvidence) -> bool {
        self.starter
    }

    fn is_collocation(&self, _: &CollocationEvidence) -> bool {
        self.collocation
    }
}

fn always(b: bool) -> Fixed {
    Fixed { abbrev: b, starter: b, collocation: b }
}

#[test]
fn one_short_sentence_teaches_no_abbreviation() {
    let trainer: Trainer<Standard> = Trainer::new();
    let mut data = TrainingData::new();
    trainer.train("Bob spent $5.50 on apples.", &mut data, &Scores);
    assert!(!data.contains_abbrev("u.s"));
    assert!(!data.contains_abbrev("apples"));
    assert!(data.has_no_abbrevs());
}

#[test]
fn repeated_abbreviation_is_learned() {
    let trainer: Trainer<Standard> = Trainer::new();
    let mut data = TrainingData::new();
    let doc = "The U.S. is a great country and the U.S. has many states and the U.S. is large and the people of the U.S. like it";
    trainer.train(doc, &mut data, &Scores);
    assert!(data.contains_abbrev("u.s"));
    assert!(!data.contains_abbrev("country"));
    assert_eq!(sentences::<Standard>("The U.S. is a great country.", &data).len(), 1);
}

#[test]
fn training_twice_keeps_the_abbreviations() {
    let trainer: Trainer<Standard> = Trainer::new();
    let doc = "The U.S. is a great country and the U.S. has many states. The people of the U.S. like it. Mr. Smith came and Mr. Jones left and Mr. Brown stayed";
    let mut once = TrainingData::new();
    trainer.train(doc, &mut once, &Scores);
    let mut twice = TrainingData::new();
    trainer.train(doc, &mut twice, &Scores);
    trainer.train(doc, &mut twice, &Scores);
    for word in ["u.s", "mr", "country", "states", "it", "smith", "the"].iter() {
        assert_eq!(once.contains_abbrev(word), twice.contains_abbrev(word), "{}", word);
    }
    assert!(once.contains_abbrev("u.s"));
    assert!(once.contains_abbrev("mr"));
}

#[test]
fn evidence_holds_the_counts() {
    struct Probe(std::cell::RefCell<Vec<AbbrevEvidence>>);
    impl Judge for Probe {
        fn is_abbrev(&self, e: &AbbrevEvidence) -> bool {
            self.0.borrow_mut().push(*e);
            false
        }

        fn is_sentence_starter(&self, _: &StarterEvidence) -> bool {
            false
        }

        fn is_collocation(&self, _: &CollocationEvidence) -> bool {
            false
        }
    }
    let trainer: Trainer<Standard> = Trainer::new();
    let mut data = TrainingData::new();
    let probe = Probe(std::cell::RefCell::new(Vec::new()));
    trainer.train("a U.S. b u.s c U.S. d.", &mut data, &probe);
    let seen = probe.0.borrow();
    assert_eq!(seen.len(), 3);
    assert_eq!(
        seen[0],
        AbbrevEvidence {
            num_periods: 2,
            num_nonperiods: 2,
            count_with_period: 2,
            count_without_period: 1,
            period_token_count: 3,
            total: 7,
        }
    );
    assert_eq!(seen[1], seen[0]);
    assert_eq!(
        seen[2],
        AbbrevEvidence {
            num_periods: 1,
            num_nonperiods: 1,
            count_with_period: 1,
            count_without_period: 0,
            period_token_count: 3,
            total: 7,
        }
    );
}

#[test]
fn verdicts_are_written_down() {
    let trainer: Trainer<Standard> = Trainer::new();
    let mut data = TrainingData::new();
    trainer.train("We met Dr. Who. He left.", &mut data, &always(true));
    assert!(data.contains_abbrev("dr"));
    assert!(data.contains_abbrev("who"));
    assert!(data.contains_abbrev("left"));
    assert!(!data.contains_abbrev("we"));
    trainer.train("dr who left", &mut data, &always(false));
    assert!(!data.contains_abbrev("dr"));
    assert!(!data.contains_abbrev("who"));
    assert!(!data.contains_abbrev("left"));
}

#[test]
fn sentence_starters_and_collocations_follow_the_verdicts() {
    let trainer: Trainer<Standard> = Trainer::new();
    let doc = "It rained in 1999. Then it stopped. Then J. Smith came. In 1999. Then J. Smith left.";

    let mut no = TrainingData::new();
    trainer.train(doc, &mut no, &always(false));
    assert!(no.has_no_abbrevs());
    assert!(no.has_no_sentence_starters());
    assert!(no.has_no_collocations());

    let mut kept = TrainingData::new();
    trainer.train(doc, &mut kept, &Fixed { abbrev: false, starter: true, collocation: true });
    assert!(kept.has_no_abbrevs());
    assert!(kept.contains_sentence_starter("then"));
    assert!(kept.contains_sentence_starter("in"));
    assert!(!kept.contains_sentence_starter("smith"));
    assert!(!kept.contains_sentence_starter("it"));
    assert!(kept.contains_collocation("j", "smith"));
    assert!(!kept.contains_collocation("##number##", "then"));
    assert!(!kept.contains_collocation("j.", "smith"));

    let mut all = TrainingData::new();
    trainer.train(doc, &mut all, &always(true));
    assert!(all.contains_abbrev("stopped"));
    assert!(all.contains_abbrev("j"));
    assert!(!all.contains_abbrev("##number##"));
    assert!(all.has_no_sentence_starters());
    assert!(all.contains_collocation("##number##", "then"));
    assert!(!all.contains_collocation("j", "smith"));
}

#[test]
fn orthographic_context_is_recorded() {
    let trainer: Trainer<Standard> = Trainer::new();
    let mut data = TrainingData::new();
    trainer.train("The cat sat. The dog ran and the cat hid.", &mut data, &always(false));
    assert_eq!(data.get_orthographic_context("the"), 0b0000_1000 | 0b0000_0010 | 0b0010_0000);
    assert_eq!(data.get_orthographic_context("cat"), 0b0010_0000);
    assert_eq!(data.get_orthographic_context("sat"), 0b0010_0000);
    assert_eq!(data.get_orthographic_context("sat."), 0);
    assert_eq!(data.get_orthographic_context("bird"), 0);
}

#[test]
fn predicates_on_pairs() {
    let mut end = Token::new("end.", false, false, false);
    end.set_is_sentence_break(true);
    let next = Token::new("Next", false, false, false);
    assert!(is_potential_sentence_starter(&next, &end));
    let mark = Token::new("n3xt!", false, false, false);
    assert!(!is_potential_sentence_starter(&mark, &end));
    let mut number = Token::new("12.", false, false, false);
    number.set_is_sentence_break(true);
    assert!(!is_potential_sentence_starter(&next, &number));
    assert!(is_potential_collocation::<Standard>(&number, &next));
    assert!(!is_potential_collocation::<Standard>(&end, &next));
    let bang = Token::new("!", false, false, false);
    assert!(!is_potential_collocation::<Standard>(&number, &bang));

    let pair = Collocation::new(&number, &next);
    assert_eq!(pair.left().typ_without_period(), "##number##");
    assert_eq!(pair.right().typ_without_break_or_period(), "next");
    let other = Token::new("7.", false, false, false);
    let upper = Token::new("NEXT", false, false, false);
    assert!(pair.same(&Collocation::new(&other, &upper)));
    assert!(!pair.same(&Collocation::new(&end, &upper)));
}

#[test]
fn rare_abbreviations_need_a_rare_type() {
    let trainer: Trainer<Standard> = Trainer::new();
    let data = TrainingData::new();
    let mut tokens = trainer.tokenize("fig fig fig fig fig and fig. , more");
    let (counts, periods) = trainer.count_types(&tokens);
    assert_eq!(periods, 1);
    assert_eq!(counts.get("fig"), 5);
    assert_eq!(counts.get("fig."), 1);
    assert_eq!(counts.get(","), 1);
    assert_eq!(counts.get("figs"), 0);
    assert_eq!(counts.sum_counts(), 9);
    assert_eq!(counts.keys(), vec!["fig", "and", "fig.", ",", "more"]);
    trainer.annotate_tokens(&mut tokens, &data);
    assert!(tokens[6].is_sentence_break());
    assert_eq!(trainer.count_sentence_breaks(&tokens), 1);
    assert!(!is_rare_abbrev_type::<Standard>(&data, &counts, &tokens[6], &tokens[7]));

    let mut few = trainer.tokenize("fig fig fig fig and fig. , more");
    let (counts, _) = trainer.count_types(&few);
    trainer.annotate_tokens(&mut few, &data);
    assert!(is_rare_abbrev_type::<Standard>(&data, &counts, &few[5], &few[6]));
    assert!(!is_rare_abbrev_type::<Standard>(&data, &counts, &few[4], &few[5]));
    let mut learned = TrainingData::new();
    trainer.learn_rare_abbrevs(&few, &counts, &mut learned);
    assert!(learned.contains_abbrev("fig"));
    assert!(!learned.contains_abbrev("and"));

    let mut known = TrainingData::new();
    known.insert_abbrev("fig.");
    assert!(!is_rare_abbrev_type::<Standard>(&known, &counts, &few[5], &few[6]));

    let mut lower = trainer.tokenize("see fig. then go");
    let (counts, _) = trainer.count_types(&lower);
    trainer.annotate_tokens(&mut lower, &data);
    assert!(!is_rare_abbrev_type::<Standard>(&data, &counts, &lower[1], &lower[2]));
    let mut seen = TrainingData::new();
    seen.insert_orthographic_context("then", 0b0000_0010);
    assert!(is_rare_abbrev_type::<Standard>(&seen, &counts, &lower[1], &lower[2]));
    seen.insert_orthographic_context("then", 0b0000_0100);
    assert!(!is_rare_abbrev_type::<Standard>(&seen, &counts, &lower[1], &lower[2]));
}

#[test]
fn long_text_is_trained_on_and_cut() {
    let mut doc = String::new();
    for i in 0..1500 {
        doc.push_str("Mr. Smith went to Washington, D.C. in ");
        doc.push_str(&format!("{}", 1900 + (i % 100)));
        doc.push_str(". He met Dr. Jones there... They talked -- for hours! \"Really?\" she asked.\n\n");
        doc.push_str("It cost $5.50 (about 4,50 euros). The U.S. is big. ");
    }
    let trainer: Trainer<Standard> = Trainer::new();
    let mut data = TrainingData::new();
    trainer.train(&doc, &mut data, &Scores);
    assert!(data.contains_abbrev("mr"));
    assert!(data.contains_abbrev("dr"));
    assert!(data.contains_abbrev("u.s"));
    assert!(!data.contains_abbrev("hours"));
    let found = sentences::<Standard>(&doc, &data);
    assert_eq!(found.len(), 4501);
    assert_eq!(
        found[0],
        "Mr. Smith went to Washington, D.C. in 1900. He met Dr. Jones there... They talked -- for hours!"
    );
    assert_eq!(found[1], "\"Really?");
    assert_eq!(found[2], "\" she asked.\n\nIt cost $5.50 (about 4,50 euros).");
    assert!(data.contains_collocation("##number##", "he"));
    let total: usize = found.iter().map(|s| s.len()).sum();
    assert!(total <= doc.len());
    let again = TrainingData::from_json(&data.to_json()).unwrap();
    assert!(again.same(&data));
}
