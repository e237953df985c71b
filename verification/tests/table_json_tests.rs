use rlex::compile;
use rlex::dfa::{LookupState, LookupTable};
use rlex::scanner::Rlex;
use serde_json::{Number, Value};

fn to_json(table: &LookupTable) -> String {
    let mut records = Vec::new();
    for row in table.states.iter() {
        let handlers: Vec<Value> = row
            .handlers
            .iter()
            .map(|&h| Value::Number(Number::from(h as u64)))
            .collect();
        let mut neighbors = serde_json::Map::new();
        for (byte, target) in row.neighbors.iter() {
            neighbors.insert(byte.to_string(), Value::Number(Number::from(*target as u64)));
        }
        let mut record = serde_json::Map::new();
        record.insert("handlers".to_string(), Value::Array(handlers));
        record.insert("neighbors".to_string(), Value::Object(neighbors));
        records.push(Value::Object(record));
    }
    let mut table = serde_json::Map::new();
    table.insert("states".to_string(), Value::Array(records));
    serde_json::to_string(&Value::Object(table)).unwrap()
}

fn from_json(text: &str) -> LookupTable {
    let value: Value = serde_json::from_str(text).unwrap();
    let mut table = LookupTable::new();
    for record in value["states"].as_array().unwrap() {
        let mut row = LookupState::new();
        for h in record["handlers"].as_array().unwrap() {
            row.handlers.push(h.as_u64().unwrap() as usize);
        }
        for (byte, target) in record["neighbors"].as_object().unwrap() {
            row.insert_neighbor(byte.parse().unwrap(), target.as_u64().unwrap() as usize);
        }
        table.states.push(row);
    }
    table
}

#[test]
fn table_round_trips_through_json() {
    let patterns: Vec<String> = ["[0-9][0-9]*", "(a|b)*abb", "if", "[a-z][a-z]*"]
        .iter()
        .map(|t| t.to_string())
        .collect();
    let table = compile(&patterns).unwrap().lookup_table;
    let text = to_json(&table);
    let back = from_json(&text);
    assert!(back.is_valid());
    assert_eq!(back.states.len(), table.states.len());
    for (a, b) in table.states.iter().zip(back.states.iter()) {
        assert_eq!(a.handlers, b.handlers);
        assert_eq!(a.neighbors, b.neighbors);
    }
    for input in ["", "if", "iff", "abb", "aabb", "12ab#", "x 9", "ababb7", "\u{e9}t\u{e9}"] {
        assert_eq!(
            Rlex::lex_bytes(input.as_bytes(), &back),
            Rlex::lex_bytes(input.as_bytes(), &table)
        );
    }
    assert_eq!(to_json(&back).len(), text.len());
}

#[test]
fn table_from_json_text() {
    let text = "{\"states\":[{\"handlers\":[],\"neighbors\":{\"97\":1}},{\"handlers\":[0],\"neighbors\":{}}]}";
    let table = from_json(text);
    assert!(table.is_valid());
    assert_eq!(Rlex::match_reg(b"ab", 0, &table), Some((1, 0)));
    assert_eq!(to_json(&table), text);
}
