use rucene::search::explanation::Explanation;
use rucene::search::scorer::{ScoreText, ScoreValue};
use serde_json::Value;

/// A relevance score.
#[derive(Clone, Copy, PartialEq)]
struct Relevance(f32);

impl std::fmt::Debug for Relevance {
    fn fmt(&self, f: &mut std::fmt::Formatter<'_>) -> std::fmt::Result {
        f.write_str(&format!("{:?}", self.0))
    }
}

impl ScoreValue for Relevance {
    // The functions of the model are never run.
    fn zero_spec() -> Relevance {
        unreachable!()
    }

    fn lowest_spec() -> Relevance {
        unreachable!()
    }

    fn plus_spec(self, _other: Relevance) -> Relevance {
        unreachable!()
    }

    fn minus_spec(self, _other: Relevance) -> Relevance {
        unreachable!()
    }

    fn times_spec(self, _other: Relevance) -> Relevance {
        unreachable!()
    }

    fn greater_spec(self, _other: Relevance) -> Relevance {
        unreachable!()
    }

    fn text_spec(self) -> ScoreText {
        unreachable!()
    }

    fn zero() -> Relevance {
        Relevance(0.0)
    }

    fn lowest() -> Relevance {
        Relevance(f32::NEG_INFINITY)
    }

    fn plus(self, other: Relevance) -> Relevance {
        Relevance(self.0 + other.0)
    }

    fn minus(self, other: Relevance) -> Relevance {
        Relevance(self.0 - other.0)
    }

    fn times(self, other: Relevance) -> Relevance {
        Relevance(self.0 * other.0)
    }

    fn greater(self, other: Relevance) -> Relevance {
        Relevance(self.0.max(other.0))
    }

    fn to_text(self) -> String {
        format!("{}", self.0)
    }
}

fn to_json(e: &Explanation<Relevance>) -> Value {
    let mut object = serde_json::Map::new();
    object.insert("is_match".to_string(), Value::Bool(e.is_match()));
    object.insert("value".to_string(), Value::from(e.value().0));
    object.insert("description".to_string(), Value::String(e.description()));
    object.insert("details".to_string(), Value::Array(e.details().iter().map(to_json).collect()));
    Value::Object(object)
}

fn from_json(v: &Value) -> Explanation<Relevance> {
    Explanation::new(
        v["is_match"].as_bool().unwrap(),
        Relevance(v["value"].as_f64().unwrap() as f32),
        v["description"].as_str().unwrap().to_string(),
        v["details"].as_array().unwrap().iter().map(from_json).collect(),
    )
}

#[test]
fn explaination_serde() {
    let e = Explanation::new(
        true,
        Relevance(1.23),
        "a good match".into(),
        vec![Explanation::new(true, Relevance(1.23), "a fair match".into(), vec![])],
    );
    let s = serde_json::to_string(&to_json(&e)).expect("failed to serialize explaination");
    let v: Value = serde_json::from_str(&s).expect("failed to deserialize explaination");
    let o = from_json(&v);
    assert_eq!(e.is_match(), o.is_match());
    assert_eq!(e.value(), o.value());
    assert_eq!(e.description(), o.description());
    assert_eq!(e.details().len(), o.details().len());
}

#[test]
fn explaination_debug() {
    let e = Explanation::new(
        true,
        Relevance(1.23),
        "a good match".into(),
        vec![Explanation::new(true, Relevance(1.23), "a fair match".into(), vec![])],
    );
    let s = r#"Explanation { is_match: true, value: 1.23, description: "a good match", details: [Explanation { is_match: true, value: 1.23, description: "a fair match", details: [] }] }"#;
    let o = format!("{e:?}");
    assert_eq!(s, o);
}

#[test]
fn explanation_of_a_miss_has_no_score() {
    let e = Explanation::new(false, Relevance(4.5), "no match".into(), vec![]);
    assert!(!e.is_match());
    assert_eq!(e.value(), Relevance(0.0));
    let counted = Explanation::new(false, 7u32, "no match".into(), vec![]);
    assert_eq!(counted.value(), 0);
    assert_eq!(Explanation::new(true, 7u32, "match".into(), vec![]).value(), 7);
}

#[test]
fn explanation_summary_and_tree() {
    let leaf = |v: u32, text: &str| Explanation::new(true, v, text.to_string(), vec![]);
    let sum = Explanation::new(
        true,
        12,
        "sum of:".to_string(),
        vec![
            leaf(5, "weight(title:fox)"),
            Explanation::new(true, 7, "max of:".to_string(), vec![leaf(7, "weight(body:fox)")]),
        ],
    );
    assert_eq!(sum.summary(), "12 = sum of:");
    assert_eq!(sum.description(), "sum of:");
    assert_eq!(sum.details().len(), 2);
    assert_eq!(
        sum.to_string(0),
        "12 = sum of:\n  5 = weight(title:fox)\n  7 = max of:\n    7 = weight(body:fox)\n"
    );
    assert_eq!(leaf(3, "x").to_string(2), "    3 = x\n");
    let float = Explanation::new(true, Relevance(1.5), "idf".to_string(), vec![]);
    assert_eq!(float.summary(), "1.5 = idf");
}

#[test]
fn explanation_clone_is_a_deep_copy() {
    let e = Explanation::new(
        true,
        3u32,
        "outer".to_string(),
        vec![Explanation::new(false, 9, "inner".to_string(), vec![])],
    );
    let copy = e.clone();
    assert_eq!(copy.to_string(1), e.to_string(1));
    assert_eq!(copy.details()[0].value(), 0);
    assert_eq!(e.duplicate().summary(), "3 = outer");
}
