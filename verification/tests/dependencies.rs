use novigrad::dependencies::{contains_operand, find_nearest_prior};
use novigrad::{
    assign_instructions_to_streams, get_instruction_dependencies, make_streams, Access,
    Dependencies, StreamState,
};

fn one_writer_two_readers() -> Vec<(Vec<usize>, Vec<usize>)> {
    vec![(vec![], vec![5]), (vec![5], vec![6]), (vec![5], vec![7])]
}

#[test]
fn two_readers_depend_on_the_one_writer() {
    let instructions = one_writer_two_readers();
    let dependencies = get_instruction_dependencies(&instructions);
    assert_eq!(dependencies.len(), 3);
    assert!(dependencies[0].write_before_read.is_empty());
    assert!(dependencies[0].write_before_write.is_empty());
    assert!(dependencies[0].read_before_write.is_empty());
    assert_eq!(dependencies[1].write_before_read, vec![0]);
    assert!(dependencies[1].write_before_write.is_empty());
    assert!(dependencies[1].read_before_write.is_empty());
    assert_eq!(dependencies[2].write_before_read, vec![0]);
    assert!(dependencies[2].write_before_write.is_empty());
    assert!(dependencies[2].read_before_write.is_empty());
}

#[test]
fn an_instruction_with_one_dependency_joins_the_stream_of_that_dependency() {
    // Both readers depend on the writer alone, so both continue its stream:
    // the three instructions form one stream, which waits for nothing.
    let instructions = one_writer_two_readers();
    let dependencies = get_instruction_dependencies(&instructions);
    assert_eq!(assign_instructions_to_streams(&dependencies), vec![0, 0, 0]);
    let streams = make_streams(&instructions);
    assert_eq!(streams.len(), 1);
    assert_eq!(streams[0].id, 0);
    assert_eq!(streams[0].instructions, vec![0, 1, 2]);
    assert!(streams[0].dependencies.is_empty());
    assert_eq!(streams[0].state, StreamState::Unreached);
}

#[test]
fn readers_with_two_dependencies_start_streams_of_their_own() {
    // Instructions 2 and 3 read what instructions 0 and 1 wrote: each has
    // two dependencies and starts a stream that waits for both writers.
    let instructions = vec![
        (vec![], vec![5]),
        (vec![], vec![4]),
        (vec![5, 4], vec![6]),
        (vec![5, 4], vec![7]),
    ];
    let streams = make_streams(&instructions);
    assert_eq!(streams.len(), 4);
    assert_eq!(streams[2].instructions, vec![2]);
    assert_eq!(streams[2].dependencies, vec![0, 1]);
    assert_eq!(streams[3].instructions, vec![3]);
    assert_eq!(streams[3].dependencies, vec![0, 1]);
}

#[test]
fn the_nearest_writer_wins() {
    let instructions = vec![
        (vec![], vec![1]),
        (vec![], vec![1]),
        (vec![], vec![2]),
        (vec![1], vec![3]),
    ];
    let dependencies = get_instruction_dependencies(&instructions);
    assert_eq!(dependencies[1].write_before_write, vec![0]);
    assert_eq!(dependencies[3].write_before_read, vec![1]);
    assert_eq!(find_nearest_prior(&instructions, 3, 1, Access::Write), Some(1));
    assert_eq!(find_nearest_prior(&instructions, 1, 1, Access::Write), Some(0));
    assert_eq!(find_nearest_prior(&instructions, 0, 1, Access::Write), None);
    assert_eq!(find_nearest_prior(&instructions, 4, 1, Access::Read), Some(3));
    assert_eq!(find_nearest_prior(&instructions, 4, 9, Access::Read), None);
}

#[test]
fn an_untouched_operand_gives_no_dependency() {
    let instructions = vec![(vec![1], vec![2]), (vec![3], vec![4])];
    let dependencies = get_instruction_dependencies(&instructions);
    for record in dependencies.iter() {
        assert!(record.write_before_read.is_empty());
        assert!(record.write_before_write.is_empty());
        assert!(record.read_before_write.is_empty());
    }
}

#[test]
fn an_operand_that_is_read_and_written_counts_as_both() {
    // Instruction 2 accumulates into operand 1: it reads and writes it.
    let instructions = vec![(vec![], vec![1]), (vec![1], vec![2]), (vec![1], vec![1])];
    let dependencies = get_instruction_dependencies(&instructions);
    assert_eq!(dependencies[2].write_before_read, vec![0]);
    assert_eq!(dependencies[2].write_before_write, vec![0]);
    assert_eq!(dependencies[2].read_before_write, vec![1]);
}

#[test]
fn one_entry_for_each_operand_in_the_order_of_the_operands() {
    let instructions = vec![(vec![], vec![1]), (vec![], vec![2]), (vec![2, 9, 1, 2], vec![])];
    let dependencies = get_instruction_dependencies(&instructions);
    assert_eq!(dependencies[2].write_before_read, vec![1, 0, 1]);
}

#[test]
fn a_write_waits_for_the_nearest_reader() {
    let instructions = vec![(vec![7], vec![]), (vec![7], vec![]), (vec![], vec![7])];
    let dependencies = get_instruction_dependencies(&instructions);
    assert_eq!(dependencies[2].read_before_write, vec![1]);
    assert!(dependencies[2].write_before_write.is_empty());
}

#[test]
fn no_instructions_no_records() {
    let instructions: Vec<(Vec<usize>, Vec<usize>)> = vec![];
    assert!(get_instruction_dependencies(&instructions).is_empty());
    assert!(make_streams(&instructions).is_empty());
}

#[test]
fn default_dependencies_are_empty() {
    let record = Dependencies::default();
    assert!(record.write_before_read.is_empty());
    assert!(record.write_before_write.is_empty());
    assert!(record.read_before_write.is_empty());
}

#[test]
fn contains_operand_finds_what_is_there() {
    assert!(contains_operand(&vec![3, 5, 8], 5));
    assert!(!contains_operand(&vec![3, 5, 8], 4));
    assert!(!contains_operand(&vec![], 4));
}
