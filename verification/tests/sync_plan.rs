use airdatable::airtable::{ExistingRecord, Record};
use airdatable::sync::{
    decimal_string, fields_to_create, finish_sync, mirror_ids, new_fields_for, object_ids,
    pair_with_new_fields, partition_objects, plan_updates,
    record_entries, split_updates, summary, CreateFieldsError, DataMirror, DataObject, RecordRef,
    SyncObjectsError, SyncOutput,
};

#[derive(Clone, Debug, PartialEq, Eq)]
struct NoteFields {
    foreign_id: u32,
    note: Option<String>,
}

#[derive(Clone, Debug)]
struct ForeignNote {
    id: u32,
    content: String,
}

impl DataObject for ForeignNote {
    type Id = u32;

    fn get_id(&self) -> u32 {
        self.id
    }
}

impl DataMirror for NoteFields {
    type Object = ForeignNote;

    fn get_mirror_id(&self) -> u32 {
        self.foreign_id
    }
}

fn note(id: u32, content: &str) -> ForeignNote {
    ForeignNote { id, content: content.to_string() }
}

fn record(id: &str, foreign_id: u32, note: &str) -> Record<NoteFields> {
    Record {
        id: id.to_string(),
        created_time: "2024-01-01T00:00:00.000Z".to_string(),
        fields: NoteFields { foreign_id, note: Some(note.to_string()) },
    }
}

fn refs(records: &[Record<NoteFields>]) -> Vec<RecordRef<'_, NoteFields>> {
    records.iter().map(|r| RecordRef { id: &r.id, fields: &r.fields }).collect()
}

fn existing_refs(records: &[ExistingRecord<NoteFields>]) -> Vec<RecordRef<'_, NoteFields>> {
    records.iter().map(|r| RecordRef { id: &r.id, fields: &r.fields }).collect()
}

fn note_fields(note: &ForeignNote) -> Result<NoteFields, CreateFieldsError> {
    Ok(NoteFields { foreign_id: note.id, note: Some(note.content.clone()) })
}

/// One sync against an in-memory table: the same decisions as the client,
/// with the table updated and extended in place of the requests.
fn sync_in_memory(
    objects: &[ForeignNote],
    table: &mut Vec<Record<NoteFields>>,
    create_fields: impl Fn(&ForeignNote) -> Result<NoteFields, CreateFieldsError>,
) -> SyncOutput<ForeignNote> {
    let objects: Vec<&ForeignNote> = objects.iter().collect();
    let existing = refs(table);
    let plan = plan_updates(&objects, &existing, &create_fields);
    let updates = plan.updates;
    let creating = fields_to_create(new_fields_for(&objects, &plan.partition.to_create, &create_fields));

    let mut new_table = table.clone();
    for update in &updates.updated {
        for record in new_table.iter_mut() {
            if record.id == update.id {
                record.fields = update.fields.clone();
            }
        }
    }
    let mut created = vec![];
    for fields in creating {
        let id = format!("rec{}", new_table.len() + created.len());
        created.push(Record { id, created_time: "2024-01-02T00:00:00.000Z".to_string(), fields });
    }
    let output = finish_sync(
        &existing_refs(&updates.updated),
        &existing_refs(&updates.skipped),
        &refs(&created),
    );
    new_table.extend(created);
    *table = new_table;
    output
}

#[test]
fn plan_updates_splits_mirrors_and_lists_objects_to_create() {
    let objects = vec![note(0, "hello :3"), note(1, "hi :3"), note(2, "hey :3")];
    let objects: Vec<&ForeignNote> = objects.iter().collect();
    let table = vec![record("recA", 1, "hi :3"), record("recB", 0, "old"), record("recC", 0, "older")];
    let existing = refs(&table);
    let plan = plan_updates(&objects, &existing, &note_fields);
    assert_eq!(plan.object_ids, vec![0, 1, 2]);
    assert_eq!(plan.mirror_ids, vec![1, 0, 0]);
    assert_eq!(plan.partition.to_update, vec![(0, 1), (1, 0)]);
    assert_eq!(plan.partition.to_create, vec![2]);
    assert_eq!(plan.updates.updated.len(), 1);
    assert_eq!(plan.updates.updated[0].id, "recB");
    assert_eq!(plan.updates.updated[0].fields.note.as_deref(), Some("hello :3"));
    assert_eq!(plan.updates.skipped.len(), 1);
    assert_eq!(plan.updates.skipped[0].id, "recA");
}

#[test]
fn partition_pairs_objects_with_their_first_mirror() {
    let objects = vec![note(0, "hello :3"), note(1, "hi :3"), note(2, "hey :3")];
    let records = vec![record("rec2", 2, "x"), record("rec0", 0, "y"), record("rec2b", 2, "z")];
    let object_refs: Vec<&ForeignNote> = objects.iter().collect();
    let p = partition_objects(&object_ids(&object_refs), &mirror_ids(&refs(&records)));
    assert_eq!(p.to_update, vec![(0, 1), (2, 0)]);
    assert_eq!(p.to_create, vec![1]);
}

#[test]
fn ids_are_read_in_order() {
    let objects = vec![note(5, "a"), note(3, "b")];
    let object_refs: Vec<&ForeignNote> = objects.iter().collect();
    assert_eq!(object_ids(&object_refs), vec![5, 3]);
    let records = vec![record("recA", 9, "x"), record("recB", 1, "y")];
    assert_eq!(mirror_ids(&refs(&records)), vec![9, 1]);
}

#[test]
fn split_updates_changed_and_skips_unchanged_fields() {
    let records = vec![record("recA", 1, "old"), record("recB", 2, "same"), record("recC", 3, "x")];
    let matched = vec![
        (RecordRef { id: &records[0].id, fields: &records[0].fields }, note_fields(&note(1, "new"))),
        (RecordRef { id: &records[1].id, fields: &records[1].fields }, note_fields(&note(2, "same"))),
        (
            RecordRef { id: &records[2].id, fields: &records[2].fields },
            Err(CreateFieldsError::new("no fields")),
        ),
    ];
    let updates = split_updates(matched);
    assert_eq!(updates.updated.len(), 1);
    assert_eq!(updates.updated[0].id, "recA");
    assert_eq!(updates.updated[0].fields, NoteFields { foreign_id: 1, note: Some("new".to_string()) });
    assert_eq!(updates.skipped.len(), 1);
    assert_eq!(updates.skipped[0].id, "recB");
}

#[test]
fn new_fields_are_built_for_the_listed_objects() {
    let objects = vec![note(0, "a"), note(1, "b"), note(2, "c")];
    let object_refs: Vec<&ForeignNote> = objects.iter().collect();
    let records = vec![record("recX", 2, "old")];
    let record_refs = refs(&records);
    let matched = pair_with_new_fields(&object_refs, &record_refs, &[(2, 0)], &note_fields);
    assert_eq!(matched.len(), 1);
    assert_eq!(matched[0].0.id, "recX");
    assert_eq!(matched[0].1.as_ref().unwrap().note.as_deref(), Some("c"));

    let built = new_fields_for(&object_refs, &[1, 0], &note_fields);
    let notes: Vec<Option<String>> = built.into_iter().map(|r| r.unwrap().note).collect();
    assert_eq!(notes, vec![Some("b".to_string()), Some("a".to_string())]);
}

#[test]
fn fields_to_create_leaves_out_failures() {
    let results: Vec<Result<u32, CreateFieldsError>> =
        vec![Ok(1), Err(CreateFieldsError::new("bad")), Ok(3)];
    assert_eq!(fields_to_create(results), vec![1, 3]);
}

#[test]
fn entries_pair_object_ids_with_record_ids() {
    let records = vec![record("recA", 4, "x"), record("recB", 8, "y")];
    assert_eq!(
        record_entries(&refs(&records)),
        vec![(4, "recA".to_string()), (8, "recB".to_string())]
    );
}

#[test]
fn sync_output_map_lets_later_entries_win() {
    let output: SyncOutput<ForeignNote> =
        SyncOutput::from_entries(vec![(1, "recA".to_string()), (2, "recB".to_string()), (1, "recC".to_string())], 1, 1, 1);
    assert_eq!(output.map.len(), 2);
    assert_eq!(output.map[&1], "recC");
    assert_eq!(output.map[&2], "recB");
    assert_eq!(output.updated_count, 1);
}

#[test]
fn finish_sync_maps_every_synced_object_and_counts() {
    let updated = vec![ExistingRecord { id: "recA".to_string(), fields: NoteFields { foreign_id: 1, note: None } }];
    let skipped = vec![ExistingRecord { id: "recB".to_string(), fields: NoteFields { foreign_id: 2, note: None } }];
    let created = vec![record("recC", 3, "c"), record("recD", 4, "d")];
    let output = finish_sync(&existing_refs(&updated), &existing_refs(&skipped), &refs(&created));
    assert_eq!(output.updated_count, 1);
    assert_eq!(output.skipped_count, 1);
    assert_eq!(output.created_count, 2);
    assert_eq!(output.map.len(), 4);
    assert_eq!(output.map[&1], "recA");
    assert_eq!(output.map[&2], "recB");
    assert_eq!(output.map[&3], "recC");
    assert_eq!(output.map[&4], "recD");
    assert_eq!(output.to_string(), "1 updated + 2 created + 1 skipped = 4 total");
}

#[test]
fn summary_reports_the_counts_and_their_total() {
    assert_eq!(summary(0, 3, 0), "0 updated + 3 created + 0 skipped = 3 total");
    assert_eq!(summary(12, 0, 105), "12 updated + 0 created + 105 skipped = 117 total");
}

#[test]
fn decimal_string_writes_numbers_without_leading_zeros() {
    assert_eq!(decimal_string(0), "0");
    assert_eq!(decimal_string(7), "7");
    assert_eq!(decimal_string(10), "10");
    assert_eq!(decimal_string(90210), "90210");
    assert_eq!(decimal_string(usize::MAX), usize::MAX.to_string());
}

#[test]
fn create_fields_error_keeps_the_message() {
    let error = CreateFieldsError::new("missing content");
    assert_eq!(error.to_string(), "missing content");
    let from_error = CreateFieldsError::new(std::fmt::Error);
    assert_eq!(from_error.to_string(), std::fmt::Error.to_string());
}

#[test]
fn create_fields_error_from_message_reports_it_as_is() {
    let error = CreateFieldsError::from_message("bad field");
    assert_eq!(error.to_string(), "bad field");
    let empty = CreateFieldsError::from_message("");
    assert_eq!(empty.to_string(), "");
}

#[test]
fn sync_objects_error_wraps_its_sources() {
    let error: SyncObjectsError = CreateFieldsError::new("boom").into();
    assert!(matches!(error, SyncObjectsError::CreateFields { .. }));
    let error: SyncObjectsError =
        airdatable::airtable::AirtableError::DeserializeSuccessResponse { response: "{}".to_string() }.into();
    assert!(matches!(error, SyncObjectsError::Airtable { .. }));
}

#[test]
fn syncing_twice_creates_once_then_skips() {
    let foreign_notes = vec![note(0, "hello :3"), note(1, "hi :3"), note(2, "hey :3")];
    let mut table: Vec<Record<NoteFields>> = vec![];

    let first = sync_in_memory(&foreign_notes, &mut table, note_fields);
    assert_eq!((first.updated_count, first.created_count, first.skipped_count), (0, 3, 0));
    assert_eq!(first.map.len(), 3);

    let second = sync_in_memory(&foreign_notes, &mut table, note_fields);
    assert_eq!((second.updated_count, second.created_count, second.skipped_count), (0, 0, 3));
    assert_eq!(second.map, first.map);

    for foreign_note in &foreign_notes {
        let matching = table
            .iter()
            .filter(|record| {
                record.fields.foreign_id == foreign_note.id
                    && record.fields.note.as_ref().is_some_and(|n| *n == foreign_note.content)
            })
            .count();
        assert_eq!(matching, 1);
    }
}

#[test]
fn syncing_changed_content_updates_only_that_record() {
    let mut foreign_notes = vec![note(0, "hello :3"), note(1, "hi :3")];
    let mut table: Vec<Record<NoteFields>> = vec![];
    sync_in_memory(&foreign_notes, &mut table, note_fields);

    foreign_notes[1].content = "bye :3".to_string();
    foreign_notes.push(note(2, "new :3"));
    let output = sync_in_memory(&foreign_notes, &mut table, note_fields);
    assert_eq!((output.updated_count, output.created_count, output.skipped_count), (1, 1, 1));
    assert_eq!(output.map[&1], "rec1");
    assert_eq!(output.map[&2], "rec2");
    assert_eq!(table[1].fields.note.as_deref(), Some("bye :3"));
    assert_eq!(output.to_string(), "1 updated + 1 created + 1 skipped = 3 total");
}

#[test]
fn objects_whose_fields_fail_are_left_out() {
    let foreign_notes = vec![note(0, "ok"), note(1, "")];
    let mut table: Vec<Record<NoteFields>> = vec![];
    let fields = |n: &ForeignNote| {
        if n.content.is_empty() {
            Err(CreateFieldsError::new("empty note"))
        } else {
            note_fields(n)
        }
    };
    let output = sync_in_memory(&foreign_notes, &mut table, fields);
    assert_eq!((output.updated_count, output.created_count, output.skipped_count), (0, 1, 0));
    assert_eq!(table.len(), 1);
    assert!(!output.map.contains_key(&1));
}
