use std::collections::HashMap;

use yaml_config::config::Config;
use yaml_config::error::Error as ConfigError;
use yaml_config::value::{Mapping, Value};

fn from_yaml(y: &serde_yaml::Value) -> Value {
    match y {
        serde_yaml::Value::Null => Value::Null,
        serde_yaml::Value::Bool(b) => Value::Bool(*b),
        serde_yaml::Value::Number(n) => Value::Number(n.to_string()),
        serde_yaml::Value::String(s) => Value::Text(s.clone()),
        serde_yaml::Value::Sequence(items) => Value::Sequence(items.iter().map(from_yaml).collect()),
        serde_yaml::Value::Mapping(m) => {
            let mut out = Mapping::new();
            for (k, v) in m {
                out.insert(from_yaml(k), from_yaml(v));
            }
            Value::Mapping(out)
        }
        serde_yaml::Value::Tagged(t) => Value::Tagged(t.tag.to_string(), Box::new(from_yaml(&t.value))),
    }
}

fn number_to_yaml(text: &str) -> Result<serde_yaml::Value, String> {
    text.parse::<serde_yaml::Number>()
        .map(serde_yaml::Value::Number)
        .map_err(|e| format!("{:?} is not a number: {}", text, e))
}

fn mapping_to_yaml(m: &Mapping) -> Result<serde_yaml::Mapping, String> {
    let mut out = serde_yaml::Mapping::new();
    for i in 0..m.len() {
        let (k, v) = m.entry(i);
        out.insert(to_yaml(k)?, to_yaml(v)?);
    }
    Ok(out)
}

fn to_yaml(v: &Value) -> Result<serde_yaml::Value, String> {
    Ok(match v {
        Value::Null => serde_yaml::Value::Null,
        Value::Bool(b) => serde_yaml::Value::Bool(*b),
        Value::Number(n) => number_to_yaml(n)?,
        Value::Text(s) => serde_yaml::Value::String(s.clone()),
        Value::Sequence(items) => {
            serde_yaml::Value::Sequence(items.iter().map(to_yaml).collect::<Result<Vec<_>, String>>()?)
        }
        Value::Mapping(m) => serde_yaml::Value::Mapping(mapping_to_yaml(m)?),
        Value::Tagged(tag, inner) => {
            if tag.is_empty() {
                return Err("a tag may not be empty".to_owned());
            }
            serde_yaml::Value::Tagged(Box::new(serde_yaml::value::TaggedValue {
                tag: serde_yaml::value::Tag::new(tag.clone()),
                value: to_yaml(inner)?,
            }))
        }
    })
}

fn read_document(disk: &HashMap<String, String>, path: &str) -> Result<Value, ConfigError> {
    let text = disk
        .get(path)
        .ok_or_else(|| ConfigError::FileOpenFailed(format!("{}: not found", path)))?;
    let y: serde_yaml::Value =
        serde_yaml::from_str(text).map_err(|e| ConfigError::DeserializationFailed(e.to_string()))?;
    Ok(from_yaml(&y))
}

fn write_document(disk: &mut HashMap<String, String>, path: &str, m: &Mapping) -> Result<(), ConfigError> {
    let y = mapping_to_yaml(m).map_err(ConfigError::SerializationFailed)?;
    let text = serde_yaml::to_string(&serde_yaml::Value::Mapping(y))
        .map_err(|e| ConfigError::SerializationFailed(e.to_string()))?;
    disk.insert(path.to_owned(), text);
    Ok(())
}

#[test]
fn open_file_not_exist() {
    let test_file = "config-test-ofne.yaml";
    let disk: HashMap<String, String> = HashMap::new();
    let mut c = Config::new().with_file(test_file);
    let r = c.read_from_file(|p| read_document(&disk, p));
    assert!(r.is_err());
    assert!(matches!(r, Err(ConfigError::FileOpenFailed(_))));
}

#[test]
fn deserialize_from_file() {
    let test_file = "config-test-dff.yaml";
    let mut disk: HashMap<String, String> = HashMap::new();
    let test_input = "test2:\n  field: 123";
    disk.insert(test_file.to_owned(), test_input.to_owned());
    println!("file content: \n{:#?}\n", disk[test_file]);
    let mut c = Config::new().with_file(test_file);
    c.read_from_file(|p| read_document(&disk, p)).unwrap();
    assert!(c.get("test1").is_err());
    assert_eq!(c.get("test1").unwrap_err(), ConfigError::ConfigDoesNotExist);
    assert!(c.get("test2").is_ok());
    let temp = c.get("test2").unwrap();
    println!("{:#?}", temp);
    let field = temp.get("field").unwrap().as_number().unwrap();
    assert_eq!(field.parse::<usize>().unwrap(), 123);
}

#[test]
fn read_from_file_add_struct_write_to_file() {
    let test_file = "config-test-rffaswtf.yaml";
    let mut disk: HashMap<String, String> = HashMap::new();
    let test_input = "test3:
          field_usize_1: 12
          field_string_1: qwerty
        ";
    disk.insert(test_file.to_owned(), test_input.to_owned());
    println!("file content: >>>\n{}\n>>>", disk[test_file]);
    let mut c = Config::new().with_file(test_file);
    c.read_from_file(|p| read_document(&disk, p)).unwrap();
    let mut t = Mapping::new();
    t.insert(Value::Text("field_usize_1".to_owned()), Value::Number(1234usize.to_string()));
    t.insert(Value::Text("field_string_1".to_owned()), Value::Text("qwertyasdfgh".to_owned()));
    t.insert(Value::Text("field_f64_1".to_owned()), Value::Number(123.456f64.to_string()));
    c.add("test4", Value::Mapping(t)).unwrap();
    let mut written: Vec<String> = Vec::new();
    c.write_to_file(|p, m| {
        for i in 0..m.len() {
            written.push(m.entry(i).0.as_str().unwrap().to_owned());
        }
        write_document(&mut disk, p, m)
    })
    .unwrap();
    assert_eq!(written, vec!["test3".to_owned(), "test4".to_owned()]);
    println!("file content: <<<\n{}\n<<<", disk[test_file]);

    let mut again = Config::new().with_file(test_file);
    again.read_from_file(|p| read_document(&disk, p)).unwrap();
    assert_eq!(again.root().len(), 2);
    let t3 = again.get("test3").unwrap();
    assert_eq!(t3.get("field_usize_1").unwrap().as_number().unwrap(), "12");
    assert_eq!(t3.get("field_string_1").unwrap().as_str().unwrap(), "qwerty");
    let t4 = again.get("test4").unwrap();
    assert_eq!(t4.get("field_usize_1").unwrap().as_number().unwrap(), "1234");
    assert_eq!(t4.get("field_string_1").unwrap().as_str().unwrap(), "qwertyasdfgh");
    let f64_text = t4.get("field_f64_1").unwrap().as_number().unwrap();
    assert_eq!(f64_text.parse::<f64>().unwrap(), 123.456);
}

#[test]
fn malformed_content_is_refused() {
    let test_file = "config-test-malformed.yaml";
    let mut disk: HashMap<String, String> = HashMap::new();
    disk.insert(test_file.to_owned(), "1234567".to_owned());
    let mut c = Config::new().with_file(test_file);
    let r = c.read_from_file(|p| read_document(&disk, p));
    assert!(matches!(r, Err(ConfigError::DeserializationFailed(_))));
}

#[test]
fn missing_file_is_an_open_failure() {
    let disk: HashMap<String, String> = HashMap::new();
    let mut c = Config::new().with_file("does-not-exist.yaml");
    assert!(matches!(c.read_from_file(|p| read_document(&disk, p)), Err(ConfigError::FileOpenFailed(_))));
}

#[test]
fn unparsable_text_is_a_deserialization_failure() {
    let mut disk: HashMap<String, String> = HashMap::new();
    disk.insert("bad.yaml".to_owned(), "a: [1, 2".to_owned());
    let mut c = Config::new().with_file("bad.yaml");
    assert!(matches!(c.read_from_file(|p| read_document(&disk, p)), Err(ConfigError::DeserializationFailed(_))));
}

#[test]
fn special_floats_keep_their_number_form() {
    let mut disk: HashMap<String, String> = HashMap::new();
    disk.insert("f.yaml".to_owned(), "a: .inf\nb: -.inf\nc: 1.5".to_owned());
    let mut c = Config::new().with_file("f.yaml");
    c.read_from_file(|p| read_document(&disk, p)).unwrap();
    c.write_to_file(|p, m| write_document(&mut disk, p, m)).unwrap();
    let mut again = Config::new().with_file("f.yaml");
    again.read_from_file(|p| read_document(&disk, p)).unwrap();
    assert_eq!(again.get("a").unwrap().as_number().unwrap(), ".inf");
    assert_eq!(again.get("b").unwrap().as_number().unwrap(), "-.inf");
    assert_eq!(again.get("c").unwrap().as_number().unwrap(), "1.5");
}

#[test]
fn tagged_entries_keep_their_tag() {
    let mut disk: HashMap<String, String> = HashMap::new();
    disk.insert("t.yaml".to_owned(), "e: !A 5\nplain: 1".to_owned());
    let mut c = Config::new().with_file("t.yaml");
    c.read_from_file(|p| read_document(&disk, p)).unwrap();
    let (tag, inner) = c.get("e").unwrap().as_tagged().unwrap();
    assert_eq!(tag, "!A");
    assert_eq!(inner.as_number().unwrap(), "5");
    c.write_to_file(|p, m| write_document(&mut disk, p, m)).unwrap();
    let mut again = Config::new().with_file("t.yaml");
    again.read_from_file(|p| read_document(&disk, p)).unwrap();
    let (tag, inner) = again.get("e").unwrap().as_tagged().unwrap();
    assert_eq!(tag, "!A");
    assert_eq!(inner.as_number().unwrap(), "5");
    assert!(matches!(again.get("plain").unwrap().as_tagged(), Err(ConfigError::DeserializationFailed(_))));
}

#[test]
fn number_text_that_is_no_number_fails_to_write() {
    let mut disk: HashMap<String, String> = HashMap::new();
    let mut c = Config::new().with_file("n.yaml");
    c.add("n", Value::Number("twelve".to_owned())).unwrap();
    let r = c.write_to_file(|p, m| write_document(&mut disk, p, m));
    assert!(matches!(r, Err(ConfigError::SerializationFailed(_))));
    assert!(disk.get("n.yaml").is_none());
}
