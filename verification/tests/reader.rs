use concurrent_hash_map::reader::Action;
use concurrent_hash_map::reader::Observation;
use concurrent_hash_map::reader::Placement;
use concurrent_hash_map::reader::Reader;

/// Takes the reader to the node `cur` behind `pre`, which nobody changes.
fn to_visit(pre: usize, cur: usize) -> Reader {
    let reader = Reader::Load { pre };
    assert_eq!(Action::LoadNext(pre), reader.action());
    let reader = reader.advance(Observation::Link(Some(cur)));
    assert_eq!(Action::Acquire(1, Some(cur)), reader.action());
    let reader = reader.advance(Observation::Done);
    assert_eq!(Action::LoadNext(pre), reader.action());
    let reader = reader.advance(Observation::Link(Some(cur)));
    assert_eq!(Action::Inspect(cur), reader.action());
    reader
}

#[test]
fn a_reader_without_a_sentinel_misses() {
    let reader = Reader::Enter;
    assert_eq!(Action::FindSentinel, reader.action());
    let reader = reader.advance(Observation::Sentinel(None));
    assert_eq!(Action::Answer(None), reader.action());
    let reader = reader.advance(Observation::Done);
    assert_eq!(Action::Finish, reader.action());
}

#[test]
fn a_reader_hits() {
    let reader = Reader::Enter.advance(Observation::Sentinel(Some(3)));
    assert_eq!(Reader::Load { pre: 3 }, reader);
    let reader = to_visit(3, 5).advance(Observation::Compared(Placement::Match));
    assert_eq!(Action::Answer(Some(5)), reader.action());
    let reader = reader.advance(Observation::Done);
    assert_eq!(Action::Release(0), reader.action());
    let reader = reader.advance(Observation::Done);
    assert_eq!(Action::Release(1), reader.action());
    assert_eq!(Reader::Done, reader.advance(Observation::Done));
}

#[test]
fn a_reader_stops_beyond_its_key() {
    let reader = to_visit(3, 5).advance(Observation::Compared(Placement::Beyond));
    assert_eq!(Action::Answer(None), reader.action());
    assert_eq!(Action::Release(0), reader.advance(Observation::Done).action());
}

#[test]
fn a_reader_moves_on() {
    let reader = to_visit(3, 5).advance(Observation::Compared(Placement::Before));
    assert_eq!(Action::Acquire(0, Some(5)), reader.action());
    let reader = reader.advance(Observation::Done);
    assert_eq!(Action::Release(1), reader.action());
    let reader = reader.advance(Observation::Done);
    assert_eq!(Reader::Load { pre: 5 }, reader);
}

#[test]
fn a_reader_ends_with_the_list() {
    let reader = Reader::Load { pre: 5 }.advance(Observation::Link(None));
    assert_eq!(Action::Acquire(1, None), reader.action());
    let reader = reader.advance(Observation::Done);
    let reader = reader.advance(Observation::Link(None));
    assert_eq!(Action::Release(0), reader.action());
    let reader = reader.advance(Observation::Done);
    assert_eq!(Action::Answer(None), reader.action());
    assert_eq!(Reader::Done, reader.advance(Observation::Done));
}

#[test]
fn a_changed_link_makes_a_reader_start_over() {
    for again in [None, Some(6)] {
        let reader = Reader::Load { pre: 3 }.advance(Observation::Link(Some(5)));
        let reader = reader.advance(Observation::Done);
        let reader = reader.advance(Observation::Link(again));
        assert_eq!(Action::Release(0), reader.action());
        let reader = reader.advance(Observation::Done);
        assert_eq!(Action::Release(1), reader.action());
        assert_eq!(Reader::Enter, reader.advance(Observation::Done));
    }
    let reader = Reader::Load { pre: 3 }.advance(Observation::Link(None));
    let reader = reader.advance(Observation::Done);
    assert_eq!(Reader::Retry, reader.advance(Observation::Link(Some(5))));
}

#[test]
fn a_reader_takes_a_cut_off_node_for_the_end() {
    // Node 5 is removed while the reader stands at it: its link is empty now.
    let reader = to_visit(3, 5).advance(Observation::Compared(Placement::Before));
    let reader = reader.advance(Observation::Done).advance(Observation::Done);
    let reader = reader.advance(Observation::Link(None)).advance(Observation::Done);
    assert_eq!(Reader::AtEnd, reader.advance(Observation::Link(None)));
}

/// Nodes by place: successor, key, value. Place 0 is the sentinel.
struct Memory {
    nodes: Vec<(Option<usize>, u64, u32)>,
}

impl Memory {
    /// Does the next action of a reader that looks for `key`; gives what it answers.
    fn serve(&self, reader: Reader, key: u64) -> (Reader, Option<Option<u32>>) {
        match reader.action() {
            Action::FindSentinel => (reader.advance(Observation::Sentinel(Some(0))), None),
            Action::LoadNext(p) => (reader.advance(Observation::Link(self.nodes[p].0)), None),
            Action::Inspect(p) => {
                let held = self.nodes[p].1;
                let placement = if held == key {
                    Placement::Match
                } else if held > key {
                    Placement::Beyond
                } else {
                    Placement::Before
                };
                (reader.advance(Observation::Compared(placement)), None)
            }
            Action::Answer(found) => {
                let answer = found.map(|p| self.nodes[p].2);
                (reader.advance(Observation::Done), Some(answer))
            }
            _ => (reader.advance(Observation::Done), None),
        }
    }
}

#[test]
fn a_reader_answers_once_with_what_its_key_had() {
    // Whenever the writer replaces the value of key 2, and however far it has come,
    // the reader gets the value before or after.
    let steps: [fn(&mut Memory); 3] = [
        |m| m.nodes.push((m.nodes[2].0, 2, 21)),
        |m| m.nodes[1].0 = Some(4),
        |m| m.nodes[2].0 = None,
    ];
    for start in 0..20 {
        for pause in 0..6 {
            let mut memory = Memory {
                nodes: vec![
                    (Some(1), 0, 0),
                    (Some(2), 1, 10),
                    (Some(3), 2, 20),
                    (None, 3, 30),
                ],
            };
            let mut reader = Reader::Enter;
            let mut answers = Vec::new();
            let mut time = 0;
            let mut written = 0;
            while reader != Reader::Done {
                if written < 3 && time >= start + written * pause {
                    steps[written](&mut memory);
                    written += 1;
                }
                let (next, answer) = memory.serve(reader, 2);
                answers.extend(answer);
                reader = next;
                time += 1;
            }
            assert_eq!(1, answers.len());
            assert!(answers[0] == Some(20) || answers[0] == Some(21));
        }
    }
}

/// The node from which a reader goes on.
fn stands_at(reader: Reader) -> Option<usize> {
    match reader {
        Reader::Load { pre } | Reader::Publish { pre, .. } | Reader::Confirm { pre, .. } => Some(pre),
        Reader::Visit { cur, .. } | Reader::Keep { cur } | Reader::LetGo { cur } => Some(cur),
        _ => None,
    }
}

#[test]
fn a_stored_key_is_found_unless_the_node_underfoot_is_cut_off() {
    // The writer removes key 1, and cuts its node off some time later. Key 3 is stored
    // all the while.
    let mut missed = 0;
    for start in 0..20 {
        for pause in 0..12 {
            let mut memory = Memory {
                nodes: vec![
                    (Some(1), 0, 0),
                    (Some(2), 1, 10),
                    (Some(3), 2, 20),
                    (None, 3, 30),
                ],
            };
            let mut reader = Reader::Enter;
            let mut answer = None;
            let mut cut_off = false;
            let mut time = 0;
            while reader != Reader::Done {
                if time == start {
                    memory.nodes[0].0 = memory.nodes[1].0;
                }
                if time == start + pause {
                    cut_off = stands_at(reader) == Some(1);
                    memory.nodes[1].0 = None;
                }
                let (next, given) = memory.serve(reader, 3);
                answer = answer.or(given);
                reader = next;
                time += 1;
            }
            if cut_off {
                missed += if answer == Some(None) { 1 } else { 0 };
            } else {
                assert_eq!(Some(Some(30)), answer);
            }
        }
    }
    assert!(missed > 0);
}
