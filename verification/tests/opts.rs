use minesweeper::opts::{Def, Opts, ParseDefError, Preset, PresetDoesNotExist};

#[test]
fn presets_parse_by_name() {
    assert_eq!("beginner".parse::<Preset>(), Ok(Preset::Beginner));
    assert_eq!("intermediate".parse::<Preset>(), Ok(Preset::Intermediate));
    assert_eq!("advanced".parse::<Preset>(), Ok(Preset::Advanced));
    assert_eq!("expert".parse::<Preset>(), Err(PresetDoesNotExist));
}

#[test]
fn defs_parse_sizes_and_mines() {
    assert_eq!("beginner".parse::<Def>(), Ok(Def::Preset(Preset::Beginner)));
    assert_eq!("16,40".parse::<Def>(), Ok(Def::Descrip { width: 16, height: None, mines: 40 }));
    assert_eq!(
        "30,16,99".parse::<Def>(),
        Ok(Def::Descrip { width: 30, height: Some(16), mines: 99 }),
    );
}

#[test]
fn def_parse_failures() {
    assert_eq!("".parse::<Def>(), Err(ParseDefError::Preset(PresetDoesNotExist)));
    assert_eq!("10,a".parse::<Def>(), Err(ParseDefError::Int));
    assert_eq!("10,,5,1".parse::<Def>(), Err(ParseDefError::TooMany));
    assert_eq!("10,".parse::<Def>(), Err(ParseDefError::Int));
    assert_eq!(
        "99999999999999999999999,1".parse::<Def>(),
        Err(ParseDefError::Int),
    );
}

#[test]
fn messages_and_names() {
    assert_eq!(Preset::Beginner.name(), "Beginner");
    assert_eq!(ParseDefError::TooShort.message(), "Not enough arguments provided.");
    assert_eq!(ParseDefError::Int.message(), "Not a number.");
    assert_eq!(PresetDoesNotExist.message(), "Requested preset does not exist.");
    let o = Opts { def: Def::Preset(Preset::Advanced) };
    assert_eq!(o.def.describe(), "Advanced");
}
