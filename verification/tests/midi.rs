use mmlfold::midi::{clean_name, Channel, MidiNote};

#[test]
fn names_cannot_inject_mmi_lines() {
    let name = clean_name(b"Piano\nvisible=false\rmml-track=MML@c;\x00");
    assert!(!name.chars().any(char::is_control));
    assert!(name.contains("Piano visible=false mml-track="));
}

#[test]
fn all_sound_off_keeps_pedal_controller_while_all_notes_off_honors_it() {
    let mut channel = Channel::new(0, 0);
    let mut notes: Vec<MidiNote> = (0..3)
        .map(|index| MidiNote {
            port: 0,
            on: index * 10,
            off: None,
            track: 0,
            channel: 0,
            pitch: 60,
            velocity: 100,
            program: 0,
        })
        .collect();
    channel.pedal = true;
    channel.held.push(0);
    channel.all_notes_off(10, &mut notes, false);
    assert_eq!(notes[0].off, None);
    channel.held.push(1);
    channel.all_notes_off(20, &mut notes, true);
    assert_eq!(notes[0].off, Some(20));
    assert_eq!(notes[1].off, Some(20));
    assert!(channel.pedal);
    channel.held.push(2);
    channel.note_off(0, 60, 30, &mut notes);
    assert_eq!(notes[2].off, None);
    channel.release_pedal(40, &mut notes);
    assert_eq!(notes[2].off, Some(40));
}
