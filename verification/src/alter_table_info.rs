//! Descriptions of an ALTER statement, as the parser hands them to the
//! catalog.

use vstd::prelude::*;

verus! {

/// What kind of object an ALTER statement changes.
#[derive(Debug, Clone, Copy, PartialEq, Eq, Structural)]
pub enum AlterType {
    Invalid,
    AlterTable,
}

/// What an ALTER TABLE statement does to the table.
#[derive(Debug, Clone, Copy, PartialEq, Eq, Structural)]
pub enum AlterTableType {
    Invalid,
    RenameColumn,
}

/// The part that every ALTER statement has.
#[derive(Debug, Clone, PartialEq)]
pub struct AlterInfo {
    pub alter_type: AlterType,
}

impl AlterInfo {
    pub fn new(alter_type: AlterType) -> (info: Self)
        ensures
            info.alter_type == alter_type,
    {
        AlterInfo { alter_type }
    }
}

/// An ALTER TABLE statement: which table, and what is done to it.
#[derive(Debug, Clone, PartialEq)]
pub struct AlterTableInfo {
    pub base: AlterInfo,
    pub alter_table_type: AlterTableType,
    pub schema: String,
    pub table: String,
}

impl AlterTableInfo {
    pub fn new<S: Into<String>, T: Into<String>>(
        alter_table_type: AlterTableType,
        schema: S,
        table: T,
    ) -> (info: Self)
        ensures
            info.base.alter_type == AlterType::AlterTable,
            info.alter_table_type == alter_table_type,
            call_ensures(<S as Into<String>>::into, (schema,), info.schema),
            call_ensures(<T as Into<String>>::into, (table,), info.table),
    {
        AlterTableInfo {
            base: AlterInfo::new(AlterType::AlterTable),
            alter_table_type,
            schema: schema.into(),
            table: table.into(),
        }
    }
}

/// An ALTER TABLE ... RENAME COLUMN statement.
#[derive(Debug, Clone, PartialEq)]
pub struct RenameColumnInfo {
    pub base: AlterTableInfo,
    pub name: String,
    pub new_name: String,
}

impl RenameColumnInfo {
    pub fn new<S: Into<String>, T: Into<String>, N: Into<String>, M: Into<String>>(
        schema: S,
        table: T,
        name: N,
        new_name: M,
    ) -> (info: Self)
        ensures
            info.base.base.alter_type == AlterType::AlterTable,
            info.base.alter_table_type == AlterTableType::RenameColumn,
            call_ensures(<S as Into<String>>::into, (schema,), info.base.schema),
            call_ensures(<T as Into<String>>::into, (table,), info.base.table),
            call_ensures(<N as Into<String>>::into, (name,), info.name),
            call_ensures(<M as Into<String>>::into, (new_name,), info.new_name),
    {
        RenameColumnInfo {
            base: AlterTableInfo {
                base: AlterInfo::new(AlterType::AlterTable),
                alter_table_type: AlterTableType::RenameColumn,
                schema: schema.into(),
                table: table.into(),
            },
            name: name.into(),
            new_name: new_name.into(),
        }
    }
}

} // verus!
