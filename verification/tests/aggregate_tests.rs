use heapstore::aggregate::{
    AggOp, Aggregate, AggregateField, Aggregator, Attribute, DataType, Field, TableSchema, Tuple,
    TupleIterator,
};
use heapstore::errors::StorageError;

/// The six-row fixture:
///
/// 1 1 3 E
/// 2 1 3 G
/// 3 1 4 A
/// 4 2 4 G
/// 5 2 5 G
/// 6 2 5 G
fn tuples() -> Vec<Tuple> {
    vec![
        Tuple::new(vec![
            Field::IntField(1),
            Field::IntField(1),
            Field::IntField(3),
            Field::StringField(b"E".to_vec()),
        ]),
        Tuple::new(vec![
            Field::IntField(2),
            Field::IntField(1),
            Field::IntField(3),
            Field::StringField(b"G".to_vec()),
        ]),
        Tuple::new(vec![
            Field::IntField(3),
            Field::IntField(1),
            Field::IntField(4),
            Field::StringField(b"A".to_vec()),
        ]),
        Tuple::new(vec![
            Field::IntField(4),
            Field::IntField(2),
            Field::IntField(4),
            Field::StringField(b"G".to_vec()),
        ]),
        Tuple::new(vec![
            Field::IntField(5),
            Field::IntField(2),
            Field::IntField(5),
            Field::StringField(b"G".to_vec()),
        ]),
        Tuple::new(vec![
            Field::IntField(6),
            Field::IntField(2),
            Field::IntField(5),
            Field::StringField(b"G".to_vec()),
        ]),
    ]
}

fn test_no_group(op: AggOp, field: usize, expected: i64) -> Result<(), StorageError> {
    let schema = TableSchema::new(vec![Attribute::new("agg".to_string(), DataType::Int)]);
    let mut agg = Aggregator::new(vec![AggregateField { field, op }], Vec::new(), &schema);
    let ti = tuples();
    for t in &ti {
        agg.merge_tuple_into_group(t);
    }
    let mut ai = agg.iterator();
    ai.open()?;
    assert_eq!(
        Field::IntField(expected),
        *ai.next()?.unwrap().get_field(0).unwrap()
    );
    assert_eq!(None, ai.next()?);
    Ok(())
}

#[test]
fn test_merge_tuples_count() -> Result<(), StorageError> {
    test_no_group(AggOp::Count, 0, 6)
}

#[test]
fn test_merge_tuples_sum() -> Result<(), StorageError> {
    test_no_group(AggOp::Sum, 1, 9)
}

#[test]
fn test_merge_tuples_max() -> Result<(), StorageError> {
    test_no_group(AggOp::Max, 0, 6)
}

#[test]
fn test_merge_tuples_min() -> Result<(), StorageError> {
    test_no_group(AggOp::Min, 0, 1)
}

#[test]
fn test_merge_tuples_avg() -> Result<(), StorageError> {
    test_no_group(AggOp::Avg, 0, 3)
}

#[test]
fn test_merge_multiple_ops() -> Result<(), StorageError> {
    let schema = TableSchema::new(vec![
        Attribute::new("agg1".to_string(), DataType::Int),
        Attribute::new("agg2".to_string(), DataType::Int),
    ]);
    let mut agg = Aggregator::new(
        vec![
            AggregateField { field: 0, op: AggOp::Max },
            AggregateField { field: 3, op: AggOp::Count },
        ],
        Vec::new(),
        &schema,
    );
    let ti = tuples();
    for t in &ti {
        agg.merge_tuple_into_group(t);
    }
    let expected = vec![Field::IntField(6), Field::IntField(6)];
    let mut ai = agg.iterator();
    ai.open()?;
    assert_eq!(Tuple::new(expected), ai.next()?.unwrap());
    Ok(())
}

fn num_tuples_iter(iter: &mut TupleIterator) -> Result<u32, StorageError> {
    let mut counter = 0;
    while iter.next()?.is_some() {
        counter += 1;
    }
    Ok(counter)
}

#[test]
fn test_merge_tuples_one_group() -> Result<(), StorageError> {
    let schema = TableSchema::new(vec![
        Attribute::new("group".to_string(), DataType::Int),
        Attribute::new("agg".to_string(), DataType::Int),
    ]);
    let mut agg = Aggregator::new(
        vec![AggregateField { field: 0, op: AggOp::Sum }],
        vec![2],
        &schema,
    );
    let ti = tuples();
    for t in &ti {
        agg.merge_tuple_into_group(t);
    }
    let mut ai = agg.iterator();
    ai.open()?;
    let rows = num_tuples_iter(&mut ai)?;
    assert_eq!(3, rows);
    Ok(())
}

#[test]
fn test_merge_tuples_multiple_groups() -> Result<(), StorageError> {
    let schema = TableSchema::new(vec![
        Attribute::new("group1".to_string(), DataType::Int),
        Attribute::new("group2".to_string(), DataType::Int),
        Attribute::new("agg".to_string(), DataType::Int),
    ]);
    let mut agg = Aggregator::new(
        vec![AggregateField { field: 0, op: AggOp::Sum }],
        vec![1, 2],
        &schema,
    );
    let ti = tuples();
    for t in &ti {
        agg.merge_tuple_into_group(t);
    }
    let mut ai = agg.iterator();
    ai.open()?;
    let rows = num_tuples_iter(&mut ai)?;
    assert_eq!(4, rows);
    Ok(())
}

fn tuple_iterator() -> TupleIterator {
    let schema = TableSchema::new(vec![
        Attribute::new("1".to_string(), DataType::Int),
        Attribute::new("2".to_string(), DataType::Int),
        Attribute::new("3".to_string(), DataType::Int),
        Attribute::new("4".to_string(), DataType::String),
    ]);
    TupleIterator::new(tuples(), schema)
}

fn num_tuples(ai: &mut Aggregate) -> Result<u32, StorageError> {
    let mut counter = 0;
    while ai.next()?.is_some() {
        counter += 1;
    }
    Ok(counter)
}

#[test]
fn test_open() -> Result<(), StorageError> {
    let ti = tuple_iterator();
    let mut ai = Aggregate::new(
        Vec::new(),
        Vec::new(),
        vec![0],
        vec!["count".to_string()],
        vec![AggOp::Count],
        ti,
    );
    assert!(!ai.is_opened());
    ai.open()?;
    assert!(ai.is_opened());
    Ok(())
}

fn test_single_agg_no_group(
    op: AggOp,
    op_name: &str,
    col: usize,
    expected: Field,
) -> Result<(), StorageError> {
    let ti = tuple_iterator();
    let mut ai = Aggregate::new(
        Vec::new(),
        Vec::new(),
        vec![col],
        vec![op_name.to_string()],
        vec![op],
        ti,
    );
    ai.open()?;
    assert_eq!(expected, *ai.next()?.unwrap().get_field(0).unwrap());
    assert_eq!(None, ai.next()?);
    Ok(())
}

#[test]
fn test_single_agg() -> Result<(), StorageError> {
    test_single_agg_no_group(AggOp::Count, "count", 0, Field::IntField(6))?;
    test_single_agg_no_group(AggOp::Sum, "sum", 0, Field::IntField(21))?;
    test_single_agg_no_group(AggOp::Max, "max", 0, Field::IntField(6))?;
    test_single_agg_no_group(AggOp::Min, "min", 0, Field::IntField(1))?;
    test_single_agg_no_group(AggOp::Avg, "avg", 0, Field::IntField(3))?;
    test_single_agg_no_group(AggOp::Count, "count", 3, Field::IntField(6))?;
    test_single_agg_no_group(AggOp::Max, "max", 3, Field::StringField(b"G".to_vec()))?;
    test_single_agg_no_group(AggOp::Min, "min", 3, Field::StringField(b"A".to_vec()))
}

#[test]
fn test_multiple_aggs() -> Result<(), StorageError> {
    let ti = tuple_iterator();
    let mut ai = Aggregate::new(
        Vec::new(),
        Vec::new(),
        vec![3, 0, 0],
        vec!["count".to_string(), "avg".to_string(), "max".to_string()],
        vec![AggOp::Count, AggOp::Avg, AggOp::Max],
        ti,
    );
    ai.open()?;
    let first_row: Vec<Field> = ai.next()?.unwrap().field_vals;
    assert_eq!(
        vec![Field::IntField(6), Field::IntField(3), Field::IntField(6)],
        first_row
    );
    ai.close()
}

fn iter_to_vec(ai: &mut Aggregate) -> Result<Vec<Vec<Field>>, StorageError> {
    let mut rows = Vec::new();
    ai.open()?;
    while let Some(t) = ai.next()? {
        rows.push(t.field_vals);
    }
    ai.close()?;
    Ok(rows)
}

#[test]
fn test_multiple_aggs_groups() -> Result<(), StorageError> {
    let ti = tuple_iterator();
    let mut ai = Aggregate::new(
        vec![1, 2],
        vec!["group1".to_string(), "group2".to_string()],
        vec![3, 0],
        vec!["count".to_string(), "max".to_string()],
        vec![AggOp::Count, AggOp::Max],
        ti,
    );
    let mut result = iter_to_vec(&mut ai)?;
    result.sort();
    let expected = vec![
        vec![
            Field::IntField(1),
            Field::IntField(3),
            Field::IntField(2),
            Field::IntField(2),
        ],
        vec![
            Field::IntField(1),
            Field::IntField(4),
            Field::IntField(1),
            Field::IntField(3),
        ],
        vec![
            Field::IntField(2),
            Field::IntField(4),
            Field::IntField(1),
            Field::IntField(4),
        ],
        vec![
            Field::IntField(2),
            Field::IntField(5),
            Field::IntField(2),
            Field::IntField(6),
        ],
    ];
    assert_eq!(expected, result);
    ai.open()?;
    let num_rows = num_tuples(&mut ai)?;
    ai.close()?;
    assert_eq!(4, num_rows);
    Ok(())
}

#[test]
fn test_close() -> Result<(), StorageError> {
    let ti = tuple_iterator();
    let mut ai = Aggregate::new(
        Vec::new(),
        Vec::new(),
        vec![0],
        vec!["count".to_string()],
        vec![AggOp::Count],
        ti,
    );
    ai.open()?;
    assert!(ai.is_opened());
    ai.close()?;
    assert!(!ai.is_opened());
    Ok(())
}

#[test]
fn test_rewind() -> Result<(), StorageError> {
    let ti = tuple_iterator();
    let mut ai = Aggregate::new(
        vec![2],
        vec!["group".to_string()],
        vec![3],
        vec!["count".to_string()],
        vec![AggOp::Count],
        ti,
    );
    ai.open()?;
    let count_before = num_tuples(&mut ai)?;
    ai.rewind()?;
    let count_after = num_tuples(&mut ai)?;
    ai.close()?;
    assert_eq!(count_before, count_after);
    Ok(())
}

#[test]
fn test_get_schema() {
    let mut agg_names = vec!["count", "max"];
    let mut groupby_names = vec!["group1", "group2"];
    let ti = tuple_iterator();
    let ai = Aggregate::new(
        vec![1, 2],
        groupby_names.iter().map(|s| s.to_string()).collect(),
        vec![3, 0],
        agg_names.iter().map(|s| s.to_string()).collect(),
        vec![AggOp::Count, AggOp::Max],
        ti,
    );
    groupby_names.append(&mut agg_names);
    let expected_names = groupby_names;
    let schema = ai.get_schema();
    for (i, attr) in schema.attributes.iter().enumerate() {
        assert_eq!(expected_names[i], attr.name.as_str());
        assert_eq!(DataType::Int, attr.dtype);
    }
}

#[test]
fn rewind_replays_identical_tuples() -> Result<(), StorageError> {
    // Draining, rewinding and draining again yields the identical rows.
    let ti = tuple_iterator();
    let mut ai = Aggregate::new(
        vec![1],
        vec!["group".to_string()],
        vec![0, 0],
        vec!["sum".to_string(), "avg".to_string()],
        vec![AggOp::Sum, AggOp::Avg],
        ti,
    );
    ai.open()?;
    let mut first = Vec::new();
    while let Some(t) = ai.next()? {
        first.push(t);
    }
    ai.rewind()?;
    let mut second = Vec::new();
    while let Some(t) = ai.next()? {
        second.push(t);
    }
    assert_eq!(first, second);
    Ok(())
}
