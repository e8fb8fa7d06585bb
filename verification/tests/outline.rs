use tilth::read::outline::code::{format_entry, outline};
use tilth::search::expand::extract_line_range;
use tilth::types::{Lang, OutlineEntry, OutlineKind};

#[test]
fn scala_outline_constructs() {
    let scala_code = r#"
package example

import scala.util.Try

trait DataSource {
  def load(): String
}

class Database {
  val connectionString = "jdbc:..."
  var connected = false
  
  def connect(): Unit = {}
}

object Database {
  def create(): Database = new Database()
}

enum Color {
  case Red, Green, Blue
}

type UserId = String
"#;

    let outline = outline(scala_code, Lang::Scala, 1000).unwrap();

    assert!(outline.contains("trait DataSource"));
    assert!(outline.contains("class Database"));
    assert!(outline.contains("object Database"));
    assert!(outline.contains("enum Color"));
    assert!(outline.contains("type UserId"));
    assert!(outline.contains("val connectionString"));
    assert!(outline.contains("var connected"));
    assert!(outline.contains("def load"));
    assert!(outline.contains("def connect"));
    assert!(outline.contains("def create"));
}

#[test]
fn php_outline_constructs() {
    let php_code = r#"<?php
namespace App\Services;

use App\Support\Client;

trait LogsQueries {
    public function log(string $query): void {}
}

class UserService {
    use LogsQueries;

    public function __construct(private Client $client) {}

    public function findUser(int $id): array {
        return $this->client->loadUser($id);
    }
}
"#;

    let outline = outline(php_code, Lang::Php, 1000).unwrap();

    assert!(outline.contains("mod App\\Services"));
    assert!(outline.contains("imports: App\\Support\\Client"));
    assert!(outline.contains("interface LogsQueries"));
    assert!(outline.contains("class UserService"));
    assert!(outline.contains("fn findUser"));
}

#[test]
fn kotlin_outline_constructs() {
    let kotlin_code = r#"
package com.example

import kotlin.collections.List
import kotlin.io.println

interface Drawable {
    fun draw()
}

data class Point(val x: Int, val y: Int)

class Canvas : Drawable {
    val width = 800
    var height = 600

    override fun draw() {
        println("Drawing")
    }

    fun resize(w: Int, h: Int) {}

    companion object {
        fun create(): Canvas = Canvas()
    }
}

object Registry {
    fun register(item: Drawable) {}
}

enum class Color {
    RED, GREEN, BLUE
}

fun String.isPalindrome(): Boolean = this == this.reversed()

fun main() {
    val canvas = Canvas()
    canvas.draw()
}
"#;

    let outline = outline(kotlin_code, Lang::Kotlin, 1000).unwrap();

    // Imports
    assert!(
        outline.contains("imports:"),
        "should have collapsed imports"
    );
    // Interface (shown as class since Kotlin grammar uses class_declaration)
    assert!(outline.contains("class Drawable"), "should have Drawable");
    // Data class
    assert!(outline.contains("class Point"), "should have Point");
    // Regular class with methods
    assert!(outline.contains("class Canvas"), "should have Canvas");
    assert!(outline.contains("fun draw"), "should have draw method");
    assert!(outline.contains("fun resize"), "should have resize method");
    // Properties inside classes
    assert!(outline.contains("prop width"), "should have width property");
    assert!(
        outline.contains("prop height"),
        "should have height property"
    );
    // Object declaration
    assert!(
        outline.contains("object Registry"),
        "should have Registry object"
    );
    assert!(
        outline.contains("fun register"),
        "should have register method"
    );
    // Enum class
    assert!(outline.contains("class Color"), "should have Color enum");
    // Top-level functions
    assert!(
        outline.contains("fun isPalindrome"),
        "should have extension fun"
    );
    assert!(outline.contains("fun main"), "should have main");
    // Kotlin-specific labels
    assert!(outline.contains("fun "), "should use 'fun' not 'fn'");
    assert!(!outline.contains("fn "), "should not use 'fn' for Kotlin");
}

#[test]
fn lines_of_an_entry_read_back() {
    for (start, end) in [(1, 1), (7, 7), (20, 115), (1_000_000, 4_294_967_295)] {
        let e = OutlineEntry {
            kind: OutlineKind::Function,
            name: "a[1-2]".to_string(),
            start_line: start,
            end_line: end,
            signature: Some("fn a() -> [u8; 3]".to_string()),
            children: vec![],
            doc: Some("doc".to_string()),
        };
        for indent in 0..3 {
            let line: Vec<char> = format_entry(&e, indent, Lang::Rust).chars().collect();
            assert_eq!(extract_line_range(&line), Some((start, end)));
        }
    }
}
