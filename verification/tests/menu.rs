use tstream::menu::{model_config_menu, prompt_options, select_option, SelectError};
use tstream::number::parse_choice;
use tstream::{ModelConfig, Prompts};

fn s(x: &str) -> Option<String> {
    Some(x.to_string())
}

fn sample() -> Prompts {
    Prompts {
        options: vec![
            ModelConfig { model: s("mistral-medium"), long: s("L1"), code: None, standard: s("S1") },
            ModelConfig { model: None, long: None, code: s("C2"), standard: None },
            ModelConfig { model: s("mistral-tiny"), long: s("L3"), code: s("C3"), standard: s("S3") },
            ModelConfig { model: s("empty"), long: None, code: None, standard: None },
        ],
    }
}

#[test]
fn menu_lists_models_and_numbers() {
    let lines = model_config_menu(&sample());
    let expected = vec![
        "Model: mistral-medium",
        "[1] Standard",
        "[2] Long",
        "",
        "Model: undefined",
        "[3] Code",
        "",
        "Model: mistral-tiny",
        "[4] Standard",
        "[5] Long",
        "[6] Code",
        "",
        "Model: empty",
        "",
    ];
    assert_eq!(lines, expected);
}

#[test]
fn options_follow_menu_order() {
    let opts = prompt_options(&sample());
    assert_eq!(
        opts,
        vec![
            (s("mistral-medium"), s("S1")),
            (s("mistral-medium"), s("L1")),
            (None, s("C2")),
            (s("mistral-tiny"), s("S3")),
            (s("mistral-tiny"), s("L3")),
            (s("mistral-tiny"), s("C3")),
        ]
    );
}

#[test]
fn selection_and_its_errors() {
    let opts = prompt_options(&sample());
    assert_eq!(
        select_option(&opts, parse_choice("2\n")),
        Ok(("mistral-medium".to_string(), "L1".to_string()))
    );
    assert_eq!(select_option(&opts, parse_choice("\n")), Ok(("mistral-medium".to_string(), "S1".to_string())));
    assert_eq!(select_option(&opts, 3), Err(SelectError::ModelUndefined));
    assert_eq!(select_option(&opts, 7), Err(SelectError::InvalidOption));
    assert_eq!(SelectError::InvalidOption.message(), "Invalid option selected");
    assert_eq!(SelectError::ModelUndefined.message(), "Model undefined");
    let no_prompt = vec![(s("m"), None)];
    assert_eq!(select_option(&no_prompt, 1), Err(SelectError::NoPrompt));
    assert_eq!(SelectError::NoPrompt.message(), "No prompt available");
}

#[test]
fn menu_number_selects_listed_option() {
    let p = sample();
    let lines = model_config_menu(&p);
    let opts = prompt_options(&p);
    // "[5] Long" is listed under mistral-tiny; typing 5 selects its long prompt.
    assert!(lines.iter().any(|l| l == "[5] Long"));
    assert_eq!(select_option(&opts, parse_choice("5")), Ok(("mistral-tiny".to_string(), "L3".to_string())));
}

#[test]
fn menu_of_joined_lists_renumbers_the_second() {
    let all = sample();
    let a = Prompts { options: sample().options.into_iter().take(2).collect() };
    let b = Prompts { options: sample().options.into_iter().skip(2).collect() };
    let n = prompt_options(&a).len();
    assert_eq!(n, 3);
    let mut expected = model_config_menu(&a);
    for line in model_config_menu(&b) {
        if let Some(rest) = line.strip_prefix('[') {
            let close = rest.find(']').unwrap();
            let k: usize = rest[..close].parse().unwrap();
            expected.push(format!("[{}]{}", k + n, &rest[close + 1..]));
        } else {
            expected.push(line);
        }
    }
    assert_eq!(model_config_menu(&all), expected);
    let mut opts = prompt_options(&a);
    opts.extend(prompt_options(&b));
    assert_eq!(prompt_options(&all), opts);
}
