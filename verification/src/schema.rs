//! Decisions of the database schema upgrade: which column layouts call for
//! which migration, when a table is set aside as a legacy backup, and when the
//! tasks table is rebuilt around its foreign key to projects. The statements
//! themselves run where the database is opened; they hand these functions
//! what the schema catalogue reported.
use vstd::prelude::*;
use crate::text::{strs_view, str_eq, concat3, eq_ignore_ascii_case, str_eq_ignore_ascii_case};

verus! {

/// Columns of `projects` in the current schema.
pub open spec fn projects_layout() -> Seq<Seq<char>> {
    seq![
        "id"@,
        "name"@,
        "sum_time_length"@,
        "start_date"@,
        "end_date"@,
        "is_done"@,
        "project_category_id"@,
    ]
}

/// Columns of `projects` before projects got a category of their own.
pub open spec fn projects_layout_before_project_category() -> Seq<Seq<char>> {
    seq!["id"@, "name"@, "sum_time_length"@, "start_date"@, "end_date"@, "is_done"@]
}

/// Columns of `projects` when each project belonged to a task category.
pub open spec fn projects_layout_with_task_category() -> Seq<Seq<char>> {
    seq![
        "id"@,
        "category_id"@,
        "name"@,
        "sum_time_length"@,
        "start_date"@,
        "end_date"@,
        "is_done"@,
    ]
}

/// Columns of `tasks` in the current schema.
pub open spec fn tasks_layout() -> Seq<Seq<char>> {
    seq![
        "id"@,
        "category_id"@,
        "time_length"@,
        "date"@,
        "project_id"@,
        "is_project_closing_task"@,
        "note"@,
    ]
}

/// Columns of `tasks` before tasks had a note.
pub open spec fn tasks_layout_before_note() -> Seq<Seq<char>> {
    seq!["id"@, "category_id"@, "time_length"@, "date"@, "project_id"@, "is_project_closing_task"@]
}

proof fn lemma_layouts_distinct()
    ensures
        tasks_layout() != tasks_layout_before_note(),
        projects_layout() != projects_layout_before_project_category(),
        projects_layout() != projects_layout_with_task_category(),
{
    reveal_strlit("name");
    reveal_strlit("category_id");
    assert(tasks_layout().len() != tasks_layout_before_note().len());
    assert(projects_layout().len() != projects_layout_before_project_category().len());
    assert(projects_layout()[1] == "name"@);
    assert(projects_layout_with_task_category()[1] == "category_id"@);
    assert("name"@.len() != "category_id"@.len());
}

/// The column names of the current `projects` table, in order.
pub fn expected_projects_columns() -> (r: Vec<String>)
    ensures
        strs_view(r@) == projects_layout(),
{
    let r: Vec<String> = vec![
        "id".to_owned(),
        "name".to_owned(),
        "sum_time_length".to_owned(),
        "start_date".to_owned(),
        "end_date".to_owned(),
        "is_done".to_owned(),
        "project_category_id".to_owned(),
    ];
    assert(strs_view(r@) =~= projects_layout());
    r
}

fn projects_columns_before_project_category() -> (r: Vec<String>)
    ensures
        strs_view(r@) == projects_layout_before_project_category(),
{
    let r: Vec<String> = vec![
        "id".to_owned(),
        "name".to_owned(),
        "sum_time_length".to_owned(),
        "start_date".to_owned(),
        "end_date".to_owned(),
        "is_done".to_owned(),
    ];
    assert(strs_view(r@) =~= projects_layout_before_project_category());
    r
}

fn projects_columns_with_task_category() -> (r: Vec<String>)
    ensures
        strs_view(r@) == projects_layout_with_task_category(),
{
    let r: Vec<String> = vec![
        "id".to_owned(),
        "category_id".to_owned(),
        "name".to_owned(),
        "sum_time_length".to_owned(),
        "start_date".to_owned(),
        "end_date".to_owned(),
        "is_done".to_owned(),
    ];
    assert(strs_view(r@) =~= projects_layout_with_task_category());
    r
}

/// The column names of the current `tasks` table, in order.
pub fn expected_tasks_columns() -> (r: Vec<String>)
    ensures
        strs_view(r@) == tasks_layout(),
{
    let r: Vec<String> = vec![
        "id".to_owned(),
        "category_id".to_owned(),
        "time_length".to_owned(),
        "date".to_owned(),
        "project_id".to_owned(),
        "is_project_closing_task".to_owned(),
        "note".to_owned(),
    ];
    assert(strs_view(r@) =~= tasks_layout());
    r
}

fn tasks_columns_before_note() -> (r: Vec<String>)
    ensures
        strs_view(r@) == tasks_layout_before_note(),
{
    let r: Vec<String> = vec![
        "id".to_owned(),
        "category_id".to_owned(),
        "time_length".to_owned(),
        "date".to_owned(),
        "project_id".to_owned(),
        "is_project_closing_task".to_owned(),
    ];
    assert(strs_view(r@) =~= tasks_layout_before_note());
    r
}

/// Whether two column lists name the same columns in the same order.
pub fn same_columns(columns: &Vec<String>, expected: &Vec<String>) -> (r: bool)
    ensures
        r == (strs_view(columns@) == strs_view(expected@)),
{
    if columns.len() != expected.len() {
        proof {
            assert(strs_view(columns@).len() != strs_view(expected@).len());
        }
        return false;
    }
    let mut i: usize = 0;
    while i < columns.len()
        invariant
            columns@.len() == expected@.len(),
            0 <= i <= columns@.len(),
            forall|k: int| 0 <= k < i ==> columns@[k]@ == expected@[k]@,
        decreases columns@.len() - i,
    {
        if !str_eq(columns[i].as_str(), expected[i].as_str()) {
            proof {
                assert(strs_view(columns@)[i as int] != strs_view(expected@)[i as int]);
            }
            return false;
        }
        i = i + 1;
    }
    assert(strs_view(columns@) =~= strs_view(expected@));
    true
}

/// An existing `tasks` table in the layout from before notes gets the
/// optional note column added in place.
pub fn tasks_table_needs_note_column(table_exists: bool, columns: &Vec<String>) -> (r: bool)
    ensures
        r == (table_exists && strs_view(columns@) == tasks_layout_before_note()),
{
    if !table_exists {
        return false;
    }
    if same_columns(columns, &expected_tasks_columns()) {
        proof {
            lemma_layouts_distinct();
        }
        return false;
    }
    same_columns(columns, &tasks_columns_before_note())
}

/// An existing `projects` table in the layout where projects belonged to a
/// task category is rebuilt without that column.
pub fn projects_table_needs_task_category_removal(table_exists: bool, columns: &Vec<String>) -> (r:
    bool)
    ensures
        r == (table_exists && strs_view(columns@) == projects_layout_with_task_category()),
{
    if !table_exists {
        return false;
    }
    if same_columns(columns, &expected_projects_columns()) {
        proof {
            lemma_layouts_distinct();
        }
        return false;
    }
    same_columns(columns, &projects_columns_with_task_category())
}

/// An existing `projects` table in the layout from before project categories
/// gets the nullable `project_category_id` column added in place.
pub fn projects_table_needs_project_category_column(table_exists: bool, columns: &Vec<String>) -> (r:
    bool)
    ensures
        r == (table_exists && strs_view(columns@) == projects_layout_before_project_category()),
{
    if !table_exists {
        return false;
    }
    if same_columns(columns, &expected_projects_columns()) {
        proof {
            lemma_layouts_distinct();
        }
        return false;
    }
    same_columns(columns, &projects_columns_before_project_category())
}

/// The refusal given when a table in an unknown layout cannot be set aside
/// because its backup name is taken.
pub open spec fn refuse_rename_message(table: Seq<char>, backup: Seq<char>) -> Seq<char> {
    "refusing to rename legacy table '"@ + table + "' because backup table '"@ + backup
        + "' already exists"@
}

/// Whether an existing table in an unexpected layout is renamed to its backup
/// name before the current schema is created: `Ok(true)` to rename,
/// `Ok(false)` to leave it (absent, or already current), and an error when
/// the backup name is already taken.
pub fn legacy_table_step(
    table_name: &str,
    table_exists: bool,
    columns: &Vec<String>,
    expected: &Vec<String>,
    backup_table_name: &str,
    backup_exists: bool,
) -> (r: Result<bool, String>)
    ensures
        !table_exists ==> r == Ok::<bool, String>(false),
        table_exists && strs_view(columns@) == strs_view(expected@) ==> r == Ok::<bool, String>(
            false,
        ),
        table_exists && strs_view(columns@) != strs_view(expected@) && !backup_exists ==> r
            == Ok::<bool, String>(true),
        table_exists && strs_view(columns@) != strs_view(expected@) && backup_exists ==> (r matches Err(
            e,
        ) && e@ == refuse_rename_message(table_name@, backup_table_name@)),
{
    if !table_exists {
        return Ok(false);
    }
    if same_columns(columns, expected) {
        return Ok(false);
    }
    if backup_exists {
        let head = concat3("refusing to rename legacy table '", table_name, "' because backup table '");
        let e = concat3(head.as_str(), backup_table_name, "' already exists");
        return Err(e);
    }
    Ok(true)
}

/// A backup of `projects` whose rows can be merged back: one in the current
/// layout or in the layout from before project categories.
pub fn projects_backup_is_restorable(
    projects_exists: bool,
    backup_exists: bool,
    backup_columns: &Vec<String>,
) -> (r: bool)
    ensures
        r == (projects_exists && backup_exists && (strs_view(backup_columns@) == projects_layout()
            || strs_view(backup_columns@) == projects_layout_before_project_category())),
{
    if !projects_exists || !backup_exists {
        return false;
    }
    same_columns(backup_columns, &expected_projects_columns()) || same_columns(
        backup_columns,
        &projects_columns_before_project_category(),
    )
}

/// One row of the foreign-key list of `tasks`: the table it points at, the
/// column it starts from and its `ON DELETE` action.
pub struct ForeignKeyRow {
    pub target_table: String,
    pub from_column: String,
    pub on_delete: String,
}

/// The foreign key of `tasks.project_id`: its target table and `ON DELETE` action.
pub struct TaskProjectForeignKey {
    pub target_table: String,
    pub on_delete: String,
}

/// The first foreign key that starts from `project_id`, as (target, on delete).
pub open spec fn first_project_fk(rows: Seq<ForeignKeyRow>) -> Option<(Seq<char>, Seq<char>)>
    decreases rows.len(),
{
    if rows.len() == 0 {
        None
    } else if rows[0].from_column@ == "project_id"@ {
        Some((rows[0].target_table@, rows[0].on_delete@))
    } else {
        first_project_fk(rows.drop_first())
    }
}

/// The foreign key of `tasks.project_id` among the rows that the schema
/// catalogue listed, the first that starts from that column.
pub fn find_task_project_fk(rows: &Vec<ForeignKeyRow>) -> (r: Option<TaskProjectForeignKey>)
    ensures
        match r {
            Some(k) => first_project_fk(rows@) == Some((k.target_table@, k.on_delete@)),
            None => first_project_fk(rows@) is None,
        },
{
    let project_id = "project_id";
    let mut i: usize = 0;
    assert(rows@.subrange(0, rows@.len() as int) =~= rows@);
    while i < rows.len()
        invariant
            0 <= i <= rows@.len(),
            project_id@ == "project_id"@,
            first_project_fk(rows@) == first_project_fk(rows@.subrange(i as int, rows@.len() as int)),
        decreases rows@.len() - i,
    {
        let rest = Ghost(rows@.subrange(i as int, rows@.len() as int));
        assert(rest@[0] == rows@[i as int]);
        if str_eq(rows[i].from_column.as_str(), project_id) {
            let row = &rows[i];
            return Some(
                TaskProjectForeignKey {
                    target_table: row.target_table.clone(),
                    on_delete: row.on_delete.clone(),
                },
            );
        }
        assert(rest@.drop_first() =~= rows@.subrange(i + 1, rows@.len() as int));
        i = i + 1;
    }
    assert(rows@.subrange(i as int, rows@.len() as int).len() == 0);
    None
}

/// Whether `tasks.project_id` points at `projects` and clears itself when its
/// project is deleted.
pub open spec fn project_fk_is_current(fk: Option<(Seq<char>, Seq<char>)>) -> bool {
    match fk {
        Some((target, on_delete)) => target == "projects"@ && eq_ignore_ascii_case(
            on_delete,
            "SET NULL"@,
        ),
        None => false,
    }
}

/// Whether the tasks table is rebuilt so that `project_id` refers to the
/// current projects table with `ON DELETE SET NULL`: both tables exist, tasks
/// has the current columns, and its project foreign key is missing, points
/// elsewhere, or does something else on delete.
pub fn tasks_table_needs_fk_rebuild(
    tasks_exists: bool,
    projects_exists: bool,
    task_columns: &Vec<String>,
    fk_rows: &Vec<ForeignKeyRow>,
) -> (r: bool)
    ensures
        r == (tasks_exists && projects_exists && strs_view(task_columns@) == tasks_layout()
            && !project_fk_is_current(first_project_fk(fk_rows@))),
{
    if !tasks_exists || !projects_exists {
        return false;
    }
    if !same_columns(task_columns, &expected_tasks_columns()) {
        return false;
    }
    match find_task_project_fk(fk_rows) {
        Some(fk) => {
            let current = str_eq(fk.target_table.as_str(), "projects") && str_eq_ignore_ascii_case(
                fk.on_delete.as_str(),
                "SET NULL",
            );
            !current
        },
        None => true,
    }
}

} // verus!
